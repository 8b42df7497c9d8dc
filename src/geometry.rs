//! Where each element of a transpose comes from: the axis layout of input and
//! output, its validation, and the per-position source map.
use vstd::prelude::*;
use crate::perm::{int_seq, inverse, inverse_of, is_permutation, lemma_inverse, occurs, permute, permuted};
use crate::radix::{digits, in_box, ints, lemma_offset_bound, lemma_prod_prefix, offset, positive, prod};

verus! {

/// Why a transpose request was refused. Every refusal happens before any
/// element is read or written.
#[derive(Debug, Clone, Copy, PartialEq, Eq, Structural)]
pub enum TransposeError {
    /// An extent is below one, an input outer extent is smaller than the
    /// extent it holds, an outer-size list has the wrong length, or a buffer
    /// would span more elements than a `usize` can count.
    InvalidShape,
    /// The permutation's length differs from the rank, or it is not a
    /// bijection on `0..rank`.
    InvalidPermutation,
    /// The output outer extents cannot hold the permuted input extents.
    IncompatibleOuterSize,
    /// The input slice is too short for the described input view.
    InvalidInputBuffer,
    /// The supplied output buffer is neither empty nor long enough.
    InvalidOutputBuffer,
}

/// The layout of one transpose. All sequences list axes slowest first, so a
/// column-major request appears with its axes reversed.
pub struct Geometry {
    /// Output axis `k` runs along input axis `perm[k]`.
    pub perm: Seq<int>,
    /// Logical extents of the input.
    pub size: Seq<int>,
    /// Extents of the buffer that holds the input view.
    pub outer_a: Seq<int>,
    /// Extents of the buffer that holds the output view.
    pub outer_b: Seq<int>,
}

/// Picks `x`'s elements, `x[q[0]], x[q[1]], ...`.
pub open spec fn gather(x: Seq<int>, q: Seq<int>) -> Seq<int> {
    Seq::new(q.len(), |j: int| x[q[j]])
}

/// Every entry of `outer` is at least the entry of `inner` on the same axis.
pub open spec fn dominates(outer: Seq<int>, inner: Seq<int>) -> bool {
    &&& outer.len() == inner.len()
    &&& forall|k: int| 0 <= k < inner.len() ==> #[trigger] outer[k] >= inner[k]
}

impl Geometry {
    /// Logical extents of the output.
    pub open spec fn view(self) -> Seq<int> {
        Seq::new(self.perm.len(), |k: int| self.size[self.perm[k]])
    }

    /// Number of elements of the output buffer.
    pub open spec fn out_len(self) -> int {
        prod(self.outer_b)
    }

    /// The output multi-index `d` lies inside the logical output.
    pub open spec fn in_view(self, d: Seq<int>) -> bool {
        forall|k: int| 0 <= k < self.perm.len() ==> #[trigger] d[k] < self.view()[k]
    }

    /// The input multi-index that output multi-index `d` reads: input axis
    /// `perm[k]` takes the coordinate of output axis `k`.
    pub open spec fn input_index(self, d: Seq<int>) -> Seq<int> {
        gather(d, inverse(self.perm))
    }

    /// The input position read for output position `p`, were it inside the
    /// logical output.
    pub open spec fn source_index(self, p: int) -> int {
        offset(self.input_index(digits(p, self.outer_b)), self.outer_a)
    }

    /// The input position that output position `p` receives, or `None` for a
    /// position outside the logical output (padding).
    pub open spec fn source(self, p: int) -> Option<int> {
        if self.in_view(digits(p, self.outer_b)) {
            Some(self.source_index(p))
        } else {
            None
        }
    }

    /// The last element of the input view.
    pub open spec fn last_index(self) -> Seq<int> {
        Seq::new(self.size.len(), |j: int| self.size[j] - 1)
    }

    /// Number of input elements that the input view needs.
    pub open spec fn in_len(self) -> int {
        offset(self.last_index(), self.outer_a) + 1
    }

    pub open spec fn well_formed(self) -> bool {
        &&& is_permutation(self.perm)
        &&& self.size.len() == self.perm.len()
        &&& positive(self.size)
        &&& dominates(self.outer_a, self.size)
        &&& dominates(self.outer_b, self.view())
        &&& prod(self.outer_a) <= usize::MAX
        &&& prod(self.outer_b) <= usize::MAX
    }
}

/// Per-axis data listed slowest axis first: as given for row-major order,
/// reversed for column-major order.
pub open spec fn axes(s: Seq<int>, row_major: bool) -> Seq<int> {
    if row_major {
        s
    } else {
        Seq::new(s.len(), |k: int| s[s.len() - 1 - k])
    }
}

/// A permutation of axes rewritten for axes listed slowest first.
pub open spec fn axes_perm(p: Seq<int>, row_major: bool) -> Seq<int> {
    if row_major {
        p
    } else {
        Seq::new(p.len(), |k: int| p.len() - 1 - p[p.len() - 1 - k])
    }
}

/// The layout of a request. A missing input outer size means a dense input; a
/// missing output outer size means a dense output.
pub open spec fn geometry(
    perm: Seq<int>,
    size: Seq<int>,
    outer_a: Option<Seq<int>>,
    outer_b: Option<Seq<int>>,
    row_major: bool,
) -> Geometry {
    Geometry {
        perm: axes_perm(perm, row_major),
        size: axes(size, row_major),
        outer_a: axes(
            match outer_a {
                Some(o) => o,
                None => size,
            },
            row_major,
        ),
        outer_b: axes(
            match outer_b {
                Some(o) => o,
                None => permuted(perm, size),
            },
            row_major,
        ),
    }
}

/// The outcome of validating a request: `a_len` is the input's length and
/// `b_len` the supplied output buffer's (zero for none).
pub open spec fn validate(
    perm: Seq<int>,
    size: Seq<int>,
    outer_a: Option<Seq<int>>,
    outer_b: Option<Seq<int>>,
    row_major: bool,
    a_len: int,
    b_len: int,
) -> Result<(), TransposeError> {
    let g = geometry(perm, size, outer_a, outer_b, row_major);
    if perm.len() != size.len() || !is_permutation(perm) {
        Err(TransposeError::InvalidPermutation)
    } else if !positive(size) {
        Err(TransposeError::InvalidShape)
    } else if outer_a matches Some(o) && !dominates(o, size) {
        Err(TransposeError::InvalidShape)
    } else if outer_b matches Some(o) && !dominates(o, permuted(perm, size)) {
        Err(TransposeError::IncompatibleOuterSize)
    } else if prod(g.outer_a) > usize::MAX || prod(g.outer_b) > usize::MAX {
        Err(TransposeError::InvalidShape)
    } else if a_len < g.in_len() {
        Err(TransposeError::InvalidInputBuffer)
    } else if 0 < b_len < g.out_len() {
        Err(TransposeError::InvalidOutputBuffer)
    } else {
        Ok(())
    }
}

/// An optional slice of `i32` read as mathematical integers.
pub open spec fn opt_ints(o: Option<&[i32]>) -> Option<Seq<int>> {
    match o {
        Some(s) => Some(int_seq(s@)),
        None => None,
    }
}

/// A validated request in the form the kernel runs it.
pub struct Plan {
    /// Inverse of the slowest-first permutation.
    pub inv: Vec<usize>,
    /// Logical output extents.
    pub view: Vec<usize>,
    /// Input buffer extents.
    pub outer_a: Vec<usize>,
    /// Output buffer extents.
    pub outer_b: Vec<usize>,
    /// Number of output elements.
    pub out_len: usize,
    /// Input stride along the fastest output axis (one for rank zero).
    pub step: usize,
    pub geom: Ghost<Geometry>,
}

impl Plan {
    pub open spec fn wf(self) -> bool {
        let g = self.geom@;
        &&& g.well_formed()
        &&& ints(self.inv@) == inverse(g.perm)
        &&& ints(self.view@) == g.view()
        &&& ints(self.outer_a@) == g.outer_a
        &&& ints(self.outer_b@) == g.outer_b
        &&& self.out_len == g.out_len()
        &&& g.perm.len() > 0 ==> self.step == run_stride(g)
    }
}

/// Two sequences related as a permutation and its inverse.
pub proof fn lemma_inverse_unique(p: Seq<int>, q: Seq<int>)
    requires
        q.len() == p.len(),
        forall|k: int| 0 <= k < p.len() ==> 0 <= #[trigger] p[k] < p.len(),
        forall|j: int| 0 <= j < p.len() ==> 0 <= #[trigger] q[j] < p.len() && p[q[j]] == j,
        forall|a: int, b: int| 0 <= a < p.len() && 0 <= b < p.len() && a != b ==> p[a] != p[b],
    ensures
        is_permutation(p),
        q == inverse(p),
{
    assert forall|j: int| 0 <= j < p.len() implies #[trigger] occurs(p, j) by {
        assert(p[q[j]] == j);
    }
    lemma_inverse(p);
    assert forall|j: int| 0 <= j < p.len() implies q[j] == #[trigger] inverse(p)[j] by {
        assert(p[inverse(p)[j]] == j);
    }
    assert(q =~= inverse(p));
}

/// Product of the extents, or `None` where it exceeds `usize::MAX`.
fn checked_prod(e: &Vec<usize>) -> (r: Option<usize>)
    requires
        positive(ints(e@)),
    ensures
        r is Some <==> prod(ints(e@)) <= usize::MAX,
        r matches Some(v) ==> v == prod(ints(e@)),
{
    let ghost s = ints(e@);
    let mut acc: usize = 1;
    let mut k: usize = 0;
    while k < e.len()
        invariant
            s == ints(e@),
            positive(s),
            k <= e.len(),
            acc == prod(s.subrange(0, k as int)),
        decreases e.len() - k,
    {
        proof {
            assert(s.subrange(0, k + 1).drop_last() =~= s.subrange(0, k as int));
            lemma_prod_prefix(s, k + 1);
        }
        match acc.checked_mul(e[k]) {
            Some(v) => {
                acc = v;
            },
            None => {
                return None;
            },
        }
        k = k + 1;
    }
    assert(s.subrange(0, k as int) =~= s);
    Some(acc)
}

/// Offset of the last element of the view with extents `size` inside the
/// buffer with extents `outer`.
fn last_offset(size: &Vec<usize>, outer: &Vec<usize>) -> (r: usize)
    requires
        size@.len() == outer@.len(),
        positive(ints(size@)),
        dominates(ints(outer@), ints(size@)),
        prod(ints(outer@)) <= usize::MAX,
    ensures
        r == offset(Seq::new(size@.len(), |j: int| size@[j] - 1), ints(outer@)),
{
    let ghost last = Seq::new(size@.len(), |j: int| size@[j] - 1);
    let ghost o = ints(outer@);
    let n = size.len();
    let mut acc: usize = 0;
    let mut k: usize = 0;
    while k < n
        invariant
            n == size@.len(),
            n == outer@.len(),
            positive(ints(size@)),
            dominates(o, ints(size@)),
            prod(o) <= usize::MAX,
            o == ints(outer@),
            last == Seq::new(size@.len(), |j: int| size@[j] - 1),
            k <= n,
            acc == offset(last.subrange(0, k as int), o.subrange(0, k as int)),
        decreases n - k,
    {
        proof {
            let i1 = last.subrange(0, k + 1);
            let e1 = o.subrange(0, k + 1);
            assert(i1.drop_last() =~= last.subrange(0, k as int));
            assert(e1.drop_last() =~= o.subrange(0, k as int));
            assert(ints(size@)[k as int] >= 1);
            assert(o[k as int] >= ints(size@)[k as int]);
            assert forall|j: int| 0 <= j < e1.len() implies 0 <= #[trigger] i1[j] < e1[j] by {
                assert(ints(size@)[j] >= 1);
                assert(o[j] >= ints(size@)[j]);
            }
            assert(in_box(i1, e1));
            lemma_offset_bound(i1, e1);
            assert(positive(o)) by {
                assert forall|j: int| 0 <= j < o.len() implies o[j] >= 1 by {
                    assert(o[j] >= ints(size@)[j]);
                }
            }
            lemma_prod_prefix(o, k + 1);
            assert(acc * outer@[k as int] + (size@[k as int] - 1) == offset(i1, e1));
        }
        acc = acc * outer[k] + (size[k] - 1);
        k = k + 1;
    }
    assert(last.subrange(0, n as int) =~= last);
    assert(o.subrange(0, n as int) =~= o);
    acc
}

/// Number of elements spanned by the axes after axis `j`.
fn axis_stride(e: &Vec<usize>, j: usize) -> (r: usize)
    requires
        positive(ints(e@)),
        prod(ints(e@)) <= usize::MAX,
        j < e@.len(),
    ensures
        r == prod(ints(e@).subrange(j + 1, e@.len() as int)),
{
    let ghost s = ints(e@);
    let len = e.len();
    let mut acc: usize = 1;
    let mut k: usize = j + 1;
    assert(s.subrange(j + 1, j + 1) =~= Seq::<int>::empty());
    while k < e.len()
        invariant
            s == ints(e@),
            positive(s),
            prod(s) <= usize::MAX,
            j < k <= e@.len(),
            acc == prod(s.subrange(j + 1, k as int)),
        decreases e.len() - k,
    {
        proof {
            assert(s.subrange(j + 1, k + 1).drop_last() =~= s.subrange(j + 1, k as int));
            crate::radix::lemma_prod_subrange(s, j + 1, k + 1);
        }
        acc = acc * e[k];
        k = k + 1;
    }
    acc
}

/// The input stride along the fastest output axis of layout `g`.
fn run_step(perm: &[i32], row_major: bool, outer_a: &Vec<usize>, g: Ghost<Geometry>) -> (r: usize)
    requires
        g@.well_formed(),
        g@.perm == axes_perm(int_seq(perm@), row_major),
        ints(outer_a@) == g@.outer_a,
    ensures
        g@.perm.len() > 0 ==> r == run_stride(g@),
{
    let n = perm.len();
    if n == 0 {
        return 1;
    }
    proof {
        lemma_well_formed_positive(g@);
        assert(0 <= g@.perm[n - 1] < n);
    }
    let fastest = if row_major { perm[n - 1] as usize } else { n - 1 - perm[0] as usize };
    axis_stride(outer_a, fastest)
}

/// Lists `v` slowest axis first, reading each entry as a `usize`.
fn canonical(v: &[i32], row_major: bool) -> (r: Vec<usize>)
    requires
        forall|k: int| 0 <= k < v@.len() ==> #[trigger] v@[k] >= 0,
    ensures
        ints(r@) == axes(int_seq(v@), row_major),
{
    let n = v.len();
    let mut r: Vec<usize> = Vec::new();
    let mut k: usize = 0;
    while k < n
        invariant
            n == v@.len(),
            forall|i: int| 0 <= i < v@.len() ==> #[trigger] v@[i] >= 0,
            k <= n,
            ints(r@) =~= axes(int_seq(v@), row_major).subrange(0, k as int),
        decreases n - k,
    {
        let x = if row_major { v[k] } else { v[n - 1 - k] };
        let ghost before = r@;
        r.push(x as usize);
        assert(ints(r@) =~= ints(before).push(x as int));
        k = k + 1;
    }
    assert(axes(int_seq(v@), row_major).subrange(0, n as int) =~= axes(int_seq(v@), row_major));
    r
}


/// A permutation rewritten for axes listed slowest first is a permutation, and
/// its inverse is the inverse rewritten the same way.
pub proof fn lemma_axes_perm(p: Seq<int>, row_major: bool)
    requires
        is_permutation(p),
    ensures
        is_permutation(axes_perm(p, row_major)),
        inverse(axes_perm(p, row_major)) == axes_perm(inverse(p), row_major),
{
    lemma_inverse(p);
    let n = p.len();
    let pc = axes_perm(p, row_major);
    let qc = axes_perm(inverse(p), row_major);
    if !row_major {
        assert forall|j: int| 0 <= j < n implies 0 <= #[trigger] qc[j] < n && pc[qc[j]] == j by {
            let q = inverse(p);
            assert(0 <= q[n - 1 - j] < n);
            assert(p[q[n - 1 - j]] == n - 1 - j);
        }
        assert forall|a: int, b: int| 0 <= a < n && 0 <= b < n && a != b implies pc[a] != pc[b] by {
            assert(p[n - 1 - a] != p[n - 1 - b]);
        }
    }
    lemma_inverse_unique(pc, qc);
}

/// Extents reordered by a permutation, then listed slowest first, are the
/// slowest-first extents reordered by the slowest-first permutation.
pub proof fn lemma_axes_view(p: Seq<int>, size: Seq<int>, row_major: bool)
    requires
        is_permutation(p),
        size.len() == p.len(),
    ensures
        axes(permuted(p, size), row_major) == Seq::new(
            p.len(),
            |k: int| axes(size, row_major)[axes_perm(p, row_major)[k]],
        ),
{
    let n = p.len();
    assert(axes(permuted(p, size), row_major) =~= Seq::new(
        n,
        |k: int| axes(size, row_major)[axes_perm(p, row_major)[k]],
    ));
}

/// Listing axes slowest first keeps positivity and dominance.
pub proof fn lemma_axes_dominates(o: Seq<int>, s: Seq<int>, row_major: bool)
    requires
        dominates(o, s),
    ensures
        dominates(axes(o, row_major), axes(s, row_major)),
        positive(s) ==> positive(axes(s, row_major)) && positive(axes(o, row_major)),
{
    let n = s.len();
    if !row_major {
        assert forall|k: int| 0 <= k < n implies #[trigger] axes(o, row_major)[k] >= axes(s, row_major)[k] by {
            assert(o[n - 1 - k] >= s[n - 1 - k]);
        }
    }
    if positive(s) {
        assert forall|k: int| 0 <= k < n implies #[trigger] axes(s, row_major)[k] >= 1 by {
            assert(s[n - 1 - k] >= 1);
        }
        assert forall|k: int| 0 <= k < n implies #[trigger] axes(o, row_major)[k] >= 1 by {
            assert(s[n - 1 - k] >= 1);
            assert(o[n - 1 - k] >= s[n - 1 - k]);
            assert(o[k] >= s[k]);
        }
    }
}

/// Whether every entry is at least one.
fn all_positive(v: &[i32]) -> (r: bool)
    ensures
        r == positive(int_seq(v@)),
{
    let mut k: usize = 0;
    while k < v.len()
        invariant
            k <= v@.len(),
            forall|i: int| 0 <= i < k ==> #[trigger] v@[i] >= 1,
        decreases v.len() - k,
    {
        if v[k] < 1 {
            assert(int_seq(v@)[k as int] < 1);
            return false;
        }
        k = k + 1;
    }
    true
}

/// Whether `outer` has the length of `inner` and every entry at least its own.
fn covers(outer: &[i32], inner: &[i32]) -> (r: bool)
    ensures
        r == dominates(int_seq(outer@), int_seq(inner@)),
{
    if outer.len() != inner.len() {
        return false;
    }
    let mut k: usize = 0;
    while k < inner.len()
        invariant
            outer@.len() == inner@.len(),
            k <= inner@.len(),
            forall|i: int| 0 <= i < k ==> #[trigger] outer@[i] >= inner@[i],
        decreases inner.len() - k,
    {
        if outer[k] < inner[k] {
            assert(int_seq(outer@)[k as int] < int_seq(inner@)[k as int]);
            return false;
        }
        k = k + 1;
    }
    assert forall|i: int| 0 <= i < inner@.len() implies #[trigger] int_seq(outer@)[i] >= int_seq(inner@)[i] by {
        assert(outer@[i] >= inner@[i]);
    }
    true
}

/// The inverse permutation and the output extents, listed slowest axis first.
fn slowest_first(perm: &[i32], inv: &Vec<usize>, size_c: &Vec<usize>, row_major: bool) -> (r: (
    Vec<usize>,
    Vec<usize>,
))
    requires
        is_permutation(int_seq(perm@)),
        inv@.len() == perm@.len(),
        size_c@.len() == perm@.len(),
        forall|i: int| 0 <= i < perm@.len() ==> #[trigger] inv@[i] as int == inverse(int_seq(perm@))[i],
    ensures
        ints(r.0@) == inverse(axes_perm(int_seq(perm@), row_major)),
        ints(r.1@) == Seq::new(
            perm@.len(),
            |i: int| ints(size_c@)[axes_perm(int_seq(perm@), row_major)[i]],
        ),
{
    let ghost p = int_seq(perm@);
    let n = perm.len();
    proof {
        lemma_inverse(p);
        lemma_axes_perm(p, row_major);
    }
    assert forall|i: int| 0 <= i < n implies 0 <= #[trigger] perm@[i] < n by {
        assert(p[i] == perm@[i] as int);
    }
    let mut inv_c: Vec<usize> = Vec::new();
    let mut view: Vec<usize> = Vec::new();
    let mut k: usize = 0;
    while k < n
        invariant
            n == perm@.len(),
            p == int_seq(perm@),
            inv@.len() == n,
            size_c@.len() == n,
            forall|i: int| 0 <= i < n ==> #[trigger] inv@[i] as int == inverse(p)[i],
            forall|i: int| 0 <= i < n ==> 0 <= #[trigger] inverse(p)[i] < n,
            forall|i: int| 0 <= i < n ==> 0 <= #[trigger] perm@[i] < n,
            k <= n,
            ints(inv_c@) =~= axes_perm(inverse(p), row_major).subrange(0, k as int),
            ints(view@) =~= Seq::new(
                n as nat,
                |i: int| ints(size_c@)[axes_perm(p, row_major)[i]],
            ).subrange(0, k as int),
        decreases n - k,
    {
        let ghost before_inv = inv_c@;
        let ghost before_view = view@;
        let q = if row_major { inv[k] } else { n - 1 - inv[n - 1 - k] };
        let pk = if row_major { perm[k] as usize } else { n - 1 - perm[n - 1 - k] as usize };
        inv_c.push(q);
        view.push(size_c[pk]);
        assert(ints(inv_c@) =~= ints(before_inv).push(q as int));
        assert(ints(view@) =~= ints(before_view).push(size_c@[pk as int] as int));
        k = k + 1;
    }
    assert(ints(inv_c@) =~= inverse(axes_perm(p, row_major)));
    (inv_c, view)
}

impl Plan {
    /// Validates a request and lays it out for the kernel. `a_len` is the
    /// input's length, `b_len` the supplied output buffer's (zero for none).
    pub fn new(
        perm: &[i32],
        size_a: &[i32],
        outer_size_a: Option<&[i32]>,
        outer_size_b: Option<&[i32]>,
        row_major: bool,
        a_len: usize,
        b_len: usize,
    ) -> (r: Result<Plan, TransposeError>)
        ensures
            ({
                let v = validate(
                    int_seq(perm@),
                    int_seq(size_a@),
                    opt_ints(outer_size_a),
                    opt_ints(outer_size_b),
                    row_major,
                    a_len as int,
                    b_len as int,
                );
                match r {
                    Ok(plan) => v is Ok && plan.wf() && plan.geom@ == geometry(
                        int_seq(perm@),
                        int_seq(size_a@),
                        opt_ints(outer_size_a),
                        opt_ints(outer_size_b),
                        row_major,
                    ),
                    Err(e) => v == Err::<(), TransposeError>(e),
                }
            }),
    {
        let ghost p = int_seq(perm@);
        let ghost size = int_seq(size_a@);
        let ghost g = geometry(p, size, opt_ints(outer_size_a), opt_ints(outer_size_b), row_major);
        let n = perm.len();
        if n != size_a.len() {
            return Err(TransposeError::InvalidPermutation);
        }
        let inv = match inverse_of(perm) {
            Some(v) => v,
            None => {
                return Err(TransposeError::InvalidPermutation);
            },
        };
        if !all_positive(size_a) {
            return Err(TransposeError::InvalidShape);
        }
        if let Some(o) = outer_size_a {
            if !covers(o, size_a) {
                return Err(TransposeError::InvalidShape);
            }
        }
        proof {
            lemma_inverse(p);
            lemma_axes_perm(p, row_major);
            lemma_axes_view(p, size, row_major);
        }
        assert forall|i: int| 0 <= i < n implies 0 <= #[trigger] perm@[i] < n by {
            assert(p[i] == perm@[i] as int);
        }
        assert forall|i: int| 0 <= i < n implies #[trigger] size_a@[i] >= 1 by {
            assert(size[i] >= 1);
        }
        let permuted_size = permute(perm, size_a);
        assert(int_seq(permuted_size@) =~= permuted(p, size));
        if let Some(o) = outer_size_b {
            if !covers(o, &permuted_size) {
                return Err(TransposeError::IncompatibleOuterSize);
            }
        }
        assert forall|i: int| 0 <= i < n implies #[trigger] permuted_size@[i] >= 1 by {
            assert(permuted_size@[i] == size_a@[perm@[i] as int]);
        }
        let size_c = canonical(size_a, row_major);
        let outer_a = match outer_size_a {
            Some(o) => {
                assert forall|i: int| 0 <= i < o@.len() implies #[trigger] o@[i] >= 0 by {
                    assert(int_seq(o@)[i] >= int_seq(size_a@)[i]);
                }
                canonical(o, row_major)
            },
            None => canonical(size_a, row_major),
        };
        let outer_b = match outer_size_b {
            Some(o) => {
                assert forall|i: int| 0 <= i < o@.len() implies #[trigger] o@[i] >= 0 by {
                    assert(int_seq(o@)[i] >= int_seq(permuted_size@)[i]);
                }
                canonical(o, row_major)
            },
            None => canonical(&permuted_size, row_major),
        };
        let (inv_c, view) = slowest_first(perm, &inv, &size_c, row_major);
        proof {
            assert(ints(view@) =~= g.view());
            lemma_axes_dominates(int_seq(size_a@), size, row_major);
            match outer_size_a {
                Some(o) => {
                    lemma_axes_dominates(int_seq(o@), size, row_major);
                },
                None => {},
            }
            match outer_size_b {
                Some(o) => {
                    lemma_axes_dominates(int_seq(o@), permuted(p, size), row_major);
                },
                None => {
                    lemma_axes_dominates(permuted(p, size), permuted(p, size), row_major);
                },
            }
            assert(g.outer_a == ints(outer_a@));
            assert(g.outer_b == ints(outer_b@));
            assert(dominates(g.outer_b, g.view()));
        }
        let prod_a = checked_prod(&outer_a);
        let out_len = match checked_prod(&outer_b) {
            Some(v) => v,
            None => {
                return Err(TransposeError::InvalidShape);
            },
        };
        if prod_a.is_none() {
            return Err(TransposeError::InvalidShape);
        }
        let last = last_offset(&size_c, &outer_a);
        assert(Seq::new(size_c@.len(), |j: int| size_c@[j] - 1) =~= g.last_index());
        if a_len <= last {
            return Err(TransposeError::InvalidInputBuffer);
        }
        if 0 < b_len && b_len < out_len {
            return Err(TransposeError::InvalidOutputBuffer);
        }
        let step = run_step(perm, row_major, &outer_a, Ghost(g));
        Ok(Plan { inv: inv_c, view, outer_a, outer_b, out_len, step, geom: Ghost(g) })
    }
}


/// In a well-formed layout every extent is at least one.
pub proof fn lemma_well_formed_positive(g: Geometry)
    requires
        g.well_formed(),
    ensures
        positive(g.view()),
        positive(g.outer_a),
        positive(g.outer_b),
        g.outer_a.len() == g.perm.len(),
        g.outer_b.len() == g.perm.len(),
{
    let n = g.perm.len();
    assert forall|k: int| 0 <= k < n implies #[trigger] g.view()[k] >= 1 by {
        assert(0 <= g.perm[k] < n);
        assert(g.size[g.perm[k]] >= 1);
    }
    assert forall|k: int| 0 <= k < n implies #[trigger] g.outer_a[k] >= 1 by {
        assert(g.outer_a[k] >= g.size[k]);
    }
    assert forall|k: int| 0 <= k < n implies #[trigger] g.outer_b[k] >= 1 by {
        assert(g.outer_b[k] >= g.view()[k]);
    }
}

/// The input index read by an output index inside the view lies inside the
/// input view.
pub proof fn lemma_input_index_in_view(g: Geometry, d: Seq<int>)
    requires
        g.well_formed(),
        d.len() == g.perm.len(),
        forall|k: int| 0 <= k < d.len() ==> 0 <= #[trigger] d[k],
        g.in_view(d),
    ensures
        in_box(g.input_index(d), g.outer_a),
        forall|j: int| 0 <= j < g.size.len() ==> #[trigger] g.input_index(d)[j] <= g.last_index()[j],
{
    let n = g.perm.len();
    lemma_inverse(g.perm);
    let i = g.input_index(d);
    assert forall|j: int| 0 <= j < n implies 0 <= #[trigger] i[j] <= g.size[j] - 1 by {
        let k = inverse(g.perm)[j];
        assert(0 <= k < n && g.perm[k] == j);
        assert(d[k] < g.view()[k]);
    }
    assert forall|j: int| 0 <= j < n implies 0 <= #[trigger] i[j] < g.outer_a[j] by {
        assert(i[j] <= g.size[j] - 1);
        assert(g.outer_a[j] >= g.size[j]);
    }
}

/// Every position that has a source reads inside the input view.
pub proof fn lemma_source_bound(g: Geometry, p: int)
    requires
        g.well_formed(),
        0 <= p < g.out_len(),
    ensures
        g.source(p) matches Some(s) ==> 0 <= s < g.in_len(),
{
    lemma_well_formed_positive(g);
    let d = digits(p, g.outer_b);
    crate::radix::lemma_digits_offset(p, g.outer_b);
    if g.in_view(d) {
        assert forall|k: int| 0 <= k < d.len() implies 0 <= #[trigger] d[k] by {
            assert(0 <= d[k] < g.outer_b[k]);
        }
        lemma_input_index_in_view(g, d);
        let last = g.last_index();
        assert(in_box(last, g.outer_a)) by {
            assert forall|j: int| 0 <= j < g.size.len() implies 0 <= #[trigger] last[j] < g.outer_a[j] by {
                assert(g.size[j] >= 1);
                assert(g.outer_a[j] >= g.size[j]);
            }
        }
        crate::radix::lemma_offset_monotone(g.input_index(d), last, g.outer_a);
        lemma_offset_bound(g.input_index(d), g.outer_a);
    }
}


/// Without an output outer size every output position lies in the view.
pub proof fn lemma_dense_output(perm: Seq<int>, size: Seq<int>, outer_a: Option<Seq<int>>, row_major: bool)
    requires
        is_permutation(perm),
        size.len() == perm.len(),
        geometry(perm, size, outer_a, None, row_major).well_formed(),
    ensures
        ({
            let g = geometry(perm, size, outer_a, None, row_major);
            &&& g.outer_b == g.view()
            &&& forall|p: int| 0 <= p < g.out_len() ==> #[trigger] g.source(p) == Some(g.source_index(p))
        }),
{
    let g = geometry(perm, size, outer_a, None, row_major);
    lemma_axes_view(perm, size, row_major);
    assert(g.outer_b =~= g.view());
    lemma_well_formed_positive(g);
    assert forall|p: int| 0 <= p < g.out_len() implies #[trigger] g.source(p) == Some(g.source_index(p)) by {
        crate::radix::lemma_digits_offset(p, g.outer_b);
        let d = digits(p, g.outer_b);
        assert forall|k: int| 0 <= k < g.perm.len() implies #[trigger] d[k] < g.view()[k] by {
            assert(0 <= d[k] < g.outer_b[k]);
        }
    }
}


/// Number of input elements between neighbours along the input axis that the
/// fastest output axis runs along.
pub open spec fn run_stride(g: Geometry) -> int {
    let n = g.perm.len() as int;
    prod(g.outer_a.subrange(g.perm[n - 1] + 1, n))
}

/// Along one run of the fastest output axis, sources advance by a fixed
/// stride, and padding stays padding.
pub proof fn lemma_source_step(g: Geometry, p: int, t: int)
    requires
        g.well_formed(),
        g.perm.len() > 0,
        0 <= p,
        0 <= t,
        digits(p, g.outer_b).last() + t < g.outer_b.last(),
    ensures
        digits(p, g.outer_b).len() == g.perm.len(),
        g.source(p) is None ==> g.source(p + t) is None,
        g.source(p) is Some && digits(p, g.outer_b).last() + t < g.view().last() ==> g.source(p + t) == Some(
            g.source_index(p) + t * run_stride(g),
        ),
{
    let n = g.perm.len() as int;
    lemma_well_formed_positive(g);
    crate::radix::lemma_digits_step(p, t, g.outer_b);
    let d = digits(p, g.outer_b);
    let d1 = digits(p + t, g.outer_b);
    assert(d1 == d.update(n - 1, d[n - 1] + t));
    if !g.in_view(d) {
        let k = choose|k: int| 0 <= k < n && !(#[trigger] d[k] < g.view()[k]);
        assert(!(d1[k] < g.view()[k]));
    }
    if g.in_view(d) && d[n - 1] + t < g.view()[n - 1] {
        assert forall|k: int| 0 <= k < n implies #[trigger] d1[k] < g.view()[k] by {
            if k != n - 1 {
                assert(d1[k] == d[k]);
            }
        }
        lemma_inverse(g.perm);
        let i = g.input_index(d);
        let j = g.perm[n - 1];
        assert(0 <= j < n);
        assert(inverse(g.perm)[j] == n - 1);
        assert(g.input_index(d1) =~= i.update(j, i[j] + t)) by {
            assert forall|m: int| 0 <= m < n implies #[trigger] g.input_index(d1)[m] == i.update(j, i[j] + t)[m] by {
                assert(0 <= inverse(g.perm)[m] < n);
                if m != j {
                    assert(g.perm[inverse(g.perm)[m]] == m);
                    assert(inverse(g.perm)[m] != n - 1);
                }
            }
        }
        crate::radix::lemma_offset_step(i, g.outer_a, j, t);
    }
}

} // verus!
