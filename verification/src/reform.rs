//! Layout normalization: turns a destination/source pair of arbitrary-stride
//! tensor layouts of equal logical shape into the minimal-dimension
//! description of the element-wise relayout between them.
//!
//! The algorithm validates the pair, drops length-1 dimensions, sorts the
//! rest canonically (destination stride descending, then source stride
//! descending, then length ascending), folds the maximal contiguous tail into
//! one atomic copy granule, and coalesces adjacent dimensions that form one
//! contiguous run in both tensors at once. Every step is a total function of
//! the validated dimension list, which is what makes equivalent layouts
//! produce identical plans.

use crate::dtype::Dtype;
use crate::error::SchemeError;
use crate::layout::{spec_merge_extent, Extent, Stride, TensorLayout};
use vstd::multiset::Multiset;
use vstd::prelude::*;
use vstd::relations::{sorted_by, total_ordering};
use vstd::seq_lib::lemma_sorted_unique;

verus! {

broadcast use vstd::seq_lib::group_to_multiset_ensures;

/// Arguments of one relayout call: where the elements must land, and where
/// they come from. Base addresses are the backend's business; the plan is a
/// pure function of the two layouts.
pub struct Args {
    /// Layout the elements must be written into.
    pub dst_layout: TensorLayout,
    /// Layout the elements are read from.
    pub src_layout: TensorLayout,
}

/// Scalar facts derived from `Args` while planning; recomputed on every call.
#[derive(Clone, Copy, PartialEq, Eq, Structural, Debug)]
pub struct Meta {
    /// The common element type of destination and source.
    pub dt: Dtype,
}

/// One varying dimension of the relayout: its length and its byte stride in
/// each tensor.
#[derive(Clone, Copy, PartialEq, Eq, Structural, Debug)]
pub struct Dim {
    /// Number of elements along the dimension.
    pub len: usize,
    /// Destination byte stride.
    pub dst: isize,
    /// Source byte stride.
    pub src: isize,
}

// ---------------------------------------------------------------------------
// Validation
// ---------------------------------------------------------------------------

/// What examining dimension `i` of the pair yields: the unified concrete
/// dimension, or the first failure the examination hits.
pub open spec fn spec_dim_at(a: Args, i: int) -> Result<Dim, SchemeError> {
    match spec_merge_extent(a.dst_layout.shape[i], a.src_layout.shape[i]) {
        None => Err(SchemeError::ShapeNotSupport),
        Some(m) => match m {
            Extent::Dyn => Err(SchemeError::ShapeNotSupport),
            Extent::Val(len) => match a.dst_layout.strides[i] {
                Stride::Dyn => Err(SchemeError::StridesNotSupport),
                Stride::Val(d) => match a.src_layout.strides[i] {
                    Stride::Dyn => Err(SchemeError::StridesNotSupport),
                    Stride::Val(s) => Ok(Dim { len, dst: d, src: s }),
                },
            },
        },
    }
}

/// The varying dimensions from index `i` on, in declaration order: length-1
/// dimensions are dropped, a destination stride of zero is a reduction and
/// fails, and the first failing dimension decides the error.
pub open spec fn spec_collect(a: Args, i: int) -> Result<Seq<Dim>, SchemeError>
    decreases a.dst_layout.shape.len() - i,
{
    if i >= a.dst_layout.shape.len() {
        Ok(Seq::empty())
    } else {
        match spec_dim_at(a, i) {
            Err(e) => Err(e),
            Ok(d) => if d.dst == 0 {
                Err(SchemeError::ReduceNotAllowed)
            } else {
                match spec_collect(a, i + 1) {
                    Err(e) => Err(e),
                    Ok(rest) => Ok(
                        if d.len == 1 {
                            rest
                        } else {
                            seq![d] + rest
                        },
                    ),
                }
            },
        }
    }
}

/// Full validation: equal dtype, equal rank of at least 2, then the
/// per-dimension examination.
pub open spec fn spec_validate(a: Args) -> Result<Seq<Dim>, SchemeError> {
    if a.dst_layout.dt != a.src_layout.dt {
        Err(SchemeError::DtypeMismatch)
    } else if !(a.dst_layout.wf() && a.src_layout.wf() && a.dst_layout.shape.len()
        == a.src_layout.shape.len() && a.dst_layout.shape.len() >= 2) {
        Err(SchemeError::RankMismatch)
    } else {
        spec_collect(a, 0)
    }
}

// ---------------------------------------------------------------------------
// Canonical order
// ---------------------------------------------------------------------------

/// Canonical dimension order: destination stride descending, ties by source
/// stride descending, further ties by length ascending. Slow-varying
/// dimensions come first, so contiguous runs gather at the tail.
pub open spec fn spec_dim_le(x: Dim, y: Dim) -> bool {
    ||| x.dst > y.dst
    ||| (x.dst == y.dst && x.src > y.src)
    ||| (x.dst == y.dst && x.src == y.src && x.len <= y.len)
}

/// The canonical order as a relation value.
pub open spec fn dim_order() -> spec_fn(Dim, Dim) -> bool {
    |x: Dim, y: Dim| spec_dim_le(x, y)
}

/// The canonical order is a total order, so a dimension multiset has exactly
/// one sorted arrangement.
pub proof fn lemma_dim_order_total()
    ensures
        total_ordering(dim_order()),
{
    let r = dim_order();
    assert forall|x: Dim, y: Dim| #[trigger] r(x, y) && #[trigger] r(y, x) implies x == y by {
        assert(x.len == y.len && x.dst == y.dst && x.src == y.src);
    }
    assert forall|x: Dim, y: Dim, z: Dim| #[trigger] r(x, y) && #[trigger] r(y, z) implies r(
        x,
        z,
    ) by {}
}

/// Decides the canonical order.
fn dim_le(x: &Dim, y: &Dim) -> (r: bool)
    ensures
        r == spec_dim_le(*x, *y),
{
    if x.dst != y.dst {
        x.dst > y.dst
    } else if x.src != y.src {
        x.src > y.src
    } else {
        x.len <= y.len
    }
}

// ---------------------------------------------------------------------------
// Products of dimension lengths
// ---------------------------------------------------------------------------

/// Product of the lengths of a dimension list.
pub open spec fn spec_prod(s: Seq<Dim>) -> int
    decreases s.len(),
{
    if s.len() == 0 {
        1
    } else {
        s[0].len * spec_prod(s.drop_first())
    }
}

/// A zero length counts as one: the bound a zero-volume tensor puts on the
/// arithmetic is the bound of its non-zero dimensions.
pub open spec fn clamp1(n: int) -> int {
    if n == 0 {
        1
    } else {
        n
    }
}

/// Product of the lengths with zeros counted as one; every intermediate
/// length and granule of the algorithm is bounded by it.
pub open spec fn spec_prod1(s: Seq<Dim>) -> int
    decreases s.len(),
{
    if s.len() == 0 {
        1
    } else {
        clamp1(s[0].len as int) * spec_prod1(s.drop_first())
    }
}

proof fn lemma_prod1_pos(s: Seq<Dim>)
    ensures
        spec_prod1(s) >= 1,
    decreases s.len(),
{
    if s.len() > 0 {
        lemma_prod1_pos(s.drop_first());
        assert(clamp1(s[0].len as int) >= 1);
        assert(clamp1(s[0].len as int) * spec_prod1(s.drop_first()) >= 1) by (nonlinear_arith)
            requires
                clamp1(s[0].len as int) >= 1,
                spec_prod1(s.drop_first()) >= 1,
        ;
    }
}

proof fn lemma_prod_nonneg(s: Seq<Dim>)
    ensures
        spec_prod(s) >= 0,
    decreases s.len(),
{
    if s.len() > 0 {
        lemma_prod_nonneg(s.drop_first());
        assert(s[0].len * spec_prod(s.drop_first()) >= 0) by (nonlinear_arith)
            requires
                s[0].len >= 0,
                spec_prod(s.drop_first()) >= 0,
        ;
    }
}

proof fn lemma_prod_le_prod1(s: Seq<Dim>)
    ensures
        0 <= spec_prod(s),
        spec_prod(s) <= spec_prod1(s),
    decreases s.len(),
{
    lemma_prod_nonneg(s);
    if s.len() > 0 {
        lemma_prod_le_prod1(s.drop_first());
        assert(s[0].len * spec_prod(s.drop_first()) <= clamp1(s[0].len as int) * spec_prod1(
            s.drop_first(),
        )) by (nonlinear_arith)
            requires
                0 <= s[0].len as int <= clamp1(s[0].len as int),
                0 <= spec_prod(s.drop_first()) <= spec_prod1(s.drop_first()),
        ;
    }
}

/// The product splits at any cut.
proof fn lemma_prod1_split(s: Seq<Dim>, i: int)
    requires
        0 <= i <= s.len(),
    ensures
        spec_prod1(s) == spec_prod1(s.subrange(0, i)) * spec_prod1(s.subrange(i, s.len() as int)),
    decreases i,
{
    if i == 0 {
        assert(s.subrange(0, 0) =~= Seq::<Dim>::empty());
        assert(s.subrange(0, s.len() as int) =~= s);
    } else {
        let d = s.drop_first();
        lemma_prod1_split(d, i - 1);
        assert(s.subrange(i, s.len() as int) =~= d.subrange(i - 1, d.len() as int));
        let pre = s.subrange(0, i);
        assert(pre.drop_first() =~= d.subrange(0, i - 1));
        assert(spec_prod1(pre) == clamp1(s[0].len as int) * spec_prod1(d.subrange(0, i - 1)));
        assert(clamp1(s[0].len as int) * (spec_prod1(d.subrange(0, i - 1)) * spec_prod1(
            d.subrange(i - 1, d.len() as int),
        )) == (clamp1(s[0].len as int) * spec_prod1(d.subrange(0, i - 1))) * spec_prod1(
            d.subrange(i - 1, d.len() as int),
        )) by (nonlinear_arith);
    }
}

/// Any single length is bounded by the clamped product of them all.
proof fn lemma_clamp_at(s: Seq<Dim>, k: int)
    requires
        0 <= k < s.len(),
    ensures
        clamp1(s[k].len as int) <= spec_prod1(s),
        s[k].len <= spec_prod1(s),
    decreases k,
{
    if k == 0 {
        lemma_prod1_pos(s.drop_first());
        assert(clamp1(s[0].len as int) * spec_prod1(s.drop_first()) >= clamp1(s[0].len as int) * 1)
            by (nonlinear_arith)
            requires
                spec_prod1(s.drop_first()) >= 1,
                clamp1(s[0].len as int) >= 1,
        ;
    } else {
        lemma_clamp_at(s.drop_first(), k - 1);
        lemma_prod1_pos(s);
        assert(clamp1(s[0].len as int) * spec_prod1(s.drop_first()) >= 1 * spec_prod1(
            s.drop_first(),
        )) by (nonlinear_arith)
            requires
                clamp1(s[0].len as int) >= 1,
                spec_prod1(s.drop_first()) >= 1,
        ;
    }
}

/// Removing an element factors the products.
proof fn lemma_prod_remove(s: Seq<Dim>, i: int)
    requires
        0 <= i < s.len(),
    ensures
        spec_prod(s) == s[i].len * spec_prod(s.remove(i)),
        spec_prod1(s) == clamp1(s[i].len as int) * spec_prod1(s.remove(i)),
    decreases i,
{
    if i == 0 {
        assert(s.remove(0) =~= s.drop_first());
    } else {
        let d = s.drop_first();
        lemma_prod_remove(d, i - 1);
        assert(s.remove(i).drop_first() =~= d.remove(i - 1));
        assert(s.remove(i)[0] == s[0]);
        assert(spec_prod(s.remove(i)) == s[0].len * spec_prod(d.remove(i - 1)));
        assert(s[0].len * (d[i - 1].len * spec_prod(d.remove(i - 1))) == d[i - 1].len * (s[0].len
            * spec_prod(d.remove(i - 1)))) by (nonlinear_arith);
        assert(spec_prod1(s.remove(i)) == clamp1(s[0].len as int) * spec_prod1(d.remove(i - 1)));
        assert(clamp1(s[0].len as int) * (clamp1(d[i - 1].len as int) * spec_prod1(
            d.remove(i - 1),
        )) == clamp1(d[i - 1].len as int) * (clamp1(s[0].len as int) * spec_prod1(
            d.remove(i - 1),
        ))) by (nonlinear_arith);
    }
}

/// Two dimension lists with the same multiset have the same products: the
/// products are permutation-invariant.
pub proof fn lemma_prod_multiset(s1: Seq<Dim>, s2: Seq<Dim>)
    requires
        s1.to_multiset() == s2.to_multiset(),
    ensures
        spec_prod(s1) == spec_prod(s2),
        spec_prod1(s1) == spec_prod1(s2),
    decreases s1.len(),
{
    s1.to_multiset_ensures();
    s2.to_multiset_ensures();
    if s1.len() == 0 {
        assert(s2.to_multiset().len() == 0);
        assert(s2.len() == 0);
    } else {
        assert(s1.to_multiset().len() == s2.to_multiset().len());
        assert(s2.len() == s1.len());
        let x = s1[0];
        assert(s1.to_multiset().count(x) > 0);
        assert(s2.to_multiset().count(x) > 0);
        assert(s2.contains(x));
        let j = choose|j: int| 0 <= j < s2.len() && s2[j] == x;
        assert(s1.remove(0).to_multiset() =~= s1.to_multiset().remove(x));
        assert(s2.remove(j).to_multiset() =~= s2.to_multiset().remove(x));
        assert(s1.remove(0) =~= s1.drop_first());
        lemma_prod_multiset(s1.drop_first(), s2.remove(j));
        lemma_prod_remove(s2, j);
    }
}

// ---------------------------------------------------------------------------
// Fold and coalesce
// ---------------------------------------------------------------------------

/// Folds the maximal trailing run of dimensions whose strides both equal the
/// running granule into the granule, multiplying it by each folded length.
pub open spec fn spec_fold(s: Seq<Dim>, unit: int) -> (int, Seq<Dim>)
    decreases s.len(),
{
    if s.len() > 0 && s.last().dst == unit && s.last().src == unit {
        spec_fold(s.drop_last(), unit * s.last().len)
    } else {
        (unit, s)
    }
}

/// Coalesces adjacent dimensions, innermost first, whenever inner stride
/// times inner length reaches the outer stride in destination and source at
/// once; the merged dimension keeps the inner strides.
pub open spec fn spec_coalesce(s: Seq<Dim>) -> Seq<Dim>
    decreases s.len(),
{
    if s.len() <= 1 {
        s
    } else {
        let t = spec_coalesce(s.drop_first());
        let f = s[0];
        let b = t[0];
        if b.dst * b.len == f.dst && b.src * b.len == f.src {
            seq![Dim { len: (f.len * b.len) as usize, dst: b.dst, src: b.src }] + t.drop_first()
        } else {
            seq![f] + t
        }
    }
}

proof fn lemma_coalesce_len(s: Seq<Dim>)
    ensures
        spec_coalesce(s).len() <= s.len(),
        s.len() >= 1 ==> spec_coalesce(s).len() >= 1,
    decreases s.len(),
{
    if s.len() > 1 {
        lemma_coalesce_len(s.drop_first());
    }
}

/// Under the volume bound the coalescing pass never overflows a length; it
/// preserves the element-count product exactly, and never grows the clamped
/// one.
proof fn lemma_coalesce_props(s: Seq<Dim>)
    requires
        spec_prod1(s) <= usize::MAX as int,
    ensures
        spec_coalesce(s).len() <= s.len(),
        s.len() >= 1 ==> spec_coalesce(s).len() >= 1,
        spec_prod(spec_coalesce(s)) == spec_prod(s),
        spec_prod1(spec_coalesce(s)) <= spec_prod1(s),
    decreases s.len(),
{
    lemma_coalesce_len(s);
    if s.len() > 1 {
        let d = s.drop_first();
        lemma_prod1_pos(d);
        lemma_prod1_split(s, 1);
        assert(s.subrange(1, s.len() as int) =~= d);
        assert(s.subrange(0, 1).drop_first() =~= Seq::<Dim>::empty());
        assert(s.subrange(0, 1)[0] == s[0]);
        assert(spec_prod1(Seq::<Dim>::empty()) == 1);
        assert(spec_prod1(s.subrange(0, 1)) == clamp1(s[0].len as int) * 1);
        assert(spec_prod1(s) == clamp1(s[0].len as int) * spec_prod1(d));
        assert(spec_prod1(d) <= spec_prod1(s)) by (nonlinear_arith)
            requires
                clamp1(s[0].len as int) >= 1,
                spec_prod1(d) >= 1,
                spec_prod1(s) == clamp1(s[0].len as int) * spec_prod1(d),
        ;
        lemma_coalesce_props(d);
        let t = spec_coalesce(d);
        let f = s[0];
        let b = t[0];
        lemma_prod1_pos(t);
        lemma_prod1_pos(t.drop_first());
        assert(spec_prod(s) == f.len * spec_prod(d));
        assert(spec_prod1(s) == clamp1(f.len as int) * spec_prod1(d));
        assert(spec_prod1(t) == clamp1(b.len as int) * spec_prod1(t.drop_first()));
        if b.dst * b.len == f.dst && b.src * b.len == f.src {
            lemma_clamp_at(t, 0);
            // the merged length fits the machine word
            assert(f.len * b.len <= usize::MAX as int) by (nonlinear_arith)
                requires
                    0 <= f.len as int <= clamp1(f.len as int),
                    0 <= b.len as int <= clamp1(b.len as int),
                    clamp1(b.len as int) <= spec_prod1(t),
                    spec_prod1(t) <= spec_prod1(d),
                    spec_prod1(t) >= 1,
                    clamp1(f.len as int) >= 1,
                    clamp1(f.len as int) * spec_prod1(d) <= usize::MAX as int,
            ;
            let m = Dim { len: (f.len * b.len) as usize, dst: b.dst, src: b.src };
            let out = seq![m] + t.drop_first();
            assert(out.drop_first() =~= t.drop_first());
            assert(out[0] == m);
            assert(m.len as int == f.len * b.len);
            assert(spec_prod(out) == m.len * spec_prod(t.drop_first()));
            assert((f.len * b.len) * spec_prod(t.drop_first()) == f.len * (b.len * spec_prod(
                t.drop_first(),
            ))) by (nonlinear_arith);
            assert(spec_prod(t) == b.len * spec_prod(t.drop_first()));
            assert(spec_prod(out) == f.len * spec_prod(t));
            // a merged zero length clamps to one, which only shrinks the
            // clamped product; a positive merged length keeps it exact
            assert(clamp1((f.len * b.len) as int) * spec_prod1(t.drop_first()) <= clamp1(
                f.len as int,
            ) * (clamp1(b.len as int) * spec_prod1(t.drop_first()))) by (nonlinear_arith)
                requires
                    f.len >= 0 && b.len >= 0,
                    spec_prod1(t.drop_first()) >= 1,
            ;
            assert(spec_prod1(out) <= clamp1(f.len as int) * spec_prod1(t));
            assert(clamp1(f.len as int) * spec_prod1(t) <= clamp1(f.len as int) * spec_prod1(d))
                by (nonlinear_arith)
                requires
                    clamp1(f.len as int) >= 1,
                    spec_prod1(t) <= spec_prod1(d),
            ;
        } else {
            let out = seq![f] + t;
            assert(out.drop_first() =~= t);
            assert(out[0] == f);
            assert(spec_prod(out) == f.len * spec_prod(t));
            assert(spec_prod1(out) == clamp1(f.len as int) * spec_prod1(t));
            assert(clamp1(f.len as int) * spec_prod1(t) <= clamp1(f.len as int) * spec_prod1(d))
                by (nonlinear_arith)
                requires
                    clamp1(f.len as int) >= 1,
                    spec_prod1(t) <= spec_prod1(d),
            ;
        }
    }
}

// ---------------------------------------------------------------------------
// The whole pipeline
// ---------------------------------------------------------------------------

/// A normalized plan, as contracts speak of it: the atomic granule in bytes
/// and the remaining dimensions, outermost first.
pub struct SchemeModel {
    /// Bytes moved as one atomic unit.
    pub unit: int,
    /// The remaining varying dimensions.
    pub dims: Seq<Dim>,
}

/// The plan (or the error) the normalization algorithm yields for a pair of
/// layouts: validate, sort canonically, fold the contiguous tail into the
/// granule, coalesce contiguous runs.
pub open spec fn spec_scheme(a: Args) -> Result<SchemeModel, SchemeError> {
    match spec_validate(a) {
        Err(e) => Err(e),
        Ok(dims) => {
            let sorted = dims.sort_by(dim_order());
            let folded = spec_fold(sorted, a.dst_layout.dt.size as int);
            Ok(SchemeModel { unit: folded.0, dims: spec_coalesce(folded.1) })
        },
    }
}

/// The machine bound planning needs: the clamped element-count product,
/// scaled by the element width, fits a machine word. Any relayout whose
/// tensors exist in memory satisfies it.
pub open spec fn spec_fits(a: Args) -> bool {
    spec_validate(a) matches Ok(dims) ==> clamp1(a.dst_layout.dt.size as int) * spec_prod1(dims)
        <= usize::MAX as int
}

impl Args {
    /// Derives the scalar planning facts: the common dtype of a pair whose
    /// ranks agree, are at least 2, and whose declared lengths unify
    /// per dimension.
    pub fn meta(&self) -> (r: Result<Meta, SchemeError>)
        ensures
            match r {
                Ok(m) => spec_meta(*self) == Ok::<Meta, SchemeError>(m),
                Err(e) => spec_meta(*self) == Err::<Meta, SchemeError>(e),
            },
    {
        let dt = self.dst_layout.dt;
        if self.src_layout.dt != dt {
            return Err(SchemeError::DtypeMismatch);
        }
        let ndim = self.dst_layout.shape.len();
        if ndim < 2 || self.src_layout.shape.len() != ndim {
            return Err(SchemeError::RankMismatch);
        }
        let mut i: usize = 0;
        while i < ndim
            invariant
                ndim == self.dst_layout.shape.len() == self.src_layout.shape.len(),
                ndim >= 2,
                self.dst_layout.dt == self.src_layout.dt,
                i <= ndim,
                forall|j: int|
                    0 <= j < i ==> spec_merge_extent(
                        self.dst_layout.shape[j],
                        self.src_layout.shape[j],
                    ) is Some,
            decreases ndim - i,
        {
            if Extent::merge(self.dst_layout.shape[i], self.src_layout.shape[i]).is_none() {
                assert(spec_merge_extent(
                    self.dst_layout.shape[i as int],
                    self.src_layout.shape[i as int],
                ) is None);
                return Err(SchemeError::ShapeNotSupport);
            }
            i = i + 1;
        }
        Ok(Meta { dt })
    }
}

/// What `meta` yields: the common dtype, or the first failure of the checks
/// it makes (dtype equality, rank, per-dimension unification).
pub open spec fn spec_meta(a: Args) -> Result<Meta, SchemeError> {
    if a.dst_layout.dt != a.src_layout.dt {
        Err(SchemeError::DtypeMismatch)
    } else if !(a.dst_layout.shape.len() == a.src_layout.shape.len() && a.dst_layout.shape.len()
        >= 2) {
        Err(SchemeError::RankMismatch)
    } else if exists|j: int|
        0 <= j < a.dst_layout.shape.len() && spec_merge_extent(
            a.dst_layout.shape[j],
            a.src_layout.shape[j],
        ) is None {
        Err(SchemeError::ShapeNotSupport)
    } else {
        Ok(Meta { dt: a.dst_layout.dt })
    }
}

// ---------------------------------------------------------------------------
// Executable pipeline
// ---------------------------------------------------------------------------

/// Validates the pair and collects its varying dimensions in declaration
/// order.
fn collect_dims(args: &Args) -> (r: Result<Vec<Dim>, SchemeError>)
    ensures
        match r {
            Ok(v) => spec_validate(*args) == Ok::<Seq<Dim>, SchemeError>(v@),
            Err(e) => spec_validate(*args) == Err::<Seq<Dim>, SchemeError>(e),
        },
{
    if args.dst_layout.dt != args.src_layout.dt {
        return Err(SchemeError::DtypeMismatch);
    }
    let ndim = args.dst_layout.shape.len();
    if !(args.dst_layout.strides.len() == ndim && args.src_layout.shape.len() == ndim
        && args.src_layout.strides.len() == ndim && ndim >= 2) {
        return Err(SchemeError::RankMismatch);
    }
    let mut dims: Vec<Dim> = Vec::new();
    let mut i: usize = 0;
    while i < ndim
        invariant
            args.dst_layout.wf(),
            args.src_layout.wf(),
            ndim == args.dst_layout.shape.len() == args.src_layout.shape.len(),
            ndim >= 2,
            args.dst_layout.dt == args.src_layout.dt,
            i <= ndim,
            forall|rest: Seq<Dim>|
                spec_collect(*args, i as int) == Ok::<Seq<Dim>, SchemeError>(rest) ==> spec_collect(
                    *args,
                    0,
                ) == Ok::<Seq<Dim>, SchemeError>(dims@ + rest),
            forall|e: SchemeError|
                spec_collect(*args, i as int) == Err::<Seq<Dim>, SchemeError>(e) ==> spec_collect(
                    *args,
                    0,
                ) == Err::<Seq<Dim>, SchemeError>(e),
        decreases ndim - i,
    {
        let merged = match Extent::merge(args.dst_layout.shape[i], args.src_layout.shape[i]) {
            None => {
                return Err(SchemeError::ShapeNotSupport);
            },
            Some(m) => m,
        };
        let len = match merged.get_static() {
            None => {
                return Err(SchemeError::ShapeNotSupport);
            },
            Some(l) => l,
        };
        let dstride = match args.dst_layout.strides[i].get_static() {
            None => {
                return Err(SchemeError::StridesNotSupport);
            },
            Some(s) => s,
        };
        let sstride = match args.src_layout.strides[i].get_static() {
            None => {
                return Err(SchemeError::StridesNotSupport);
            },
            Some(s) => s,
        };
        let d = Dim { len, dst: dstride, src: sstride };
        assert(spec_dim_at(*args, i as int) == Ok::<Dim, SchemeError>(d));
        if d.dst == 0 {
            return Err(SchemeError::ReduceNotAllowed);
        }
        let ghost old_dims = dims@;
        if d.len != 1 {
            dims.push(d);
        }
        proof {
            assert forall|rest: Seq<Dim>|
                spec_collect(*args, i + 1) == Ok::<Seq<Dim>, SchemeError>(
                    rest,
                ) implies spec_collect(*args, 0) == Ok::<Seq<Dim>, SchemeError>(
                dims@ + rest,
            ) by {
                let kept: Seq<Dim> = if d.len == 1 {
                    rest
                } else {
                    seq![d] + rest
                };
                assert(spec_collect(*args, i as int) == Ok::<Seq<Dim>, SchemeError>(kept));
                assert(old_dims + kept =~= dims@ + rest);
            }
        }
        i = i + 1;
    }
    proof {
        assert(spec_collect(*args, ndim as int) == Ok::<Seq<Dim>, SchemeError>(Seq::empty()));
        assert(dims@ + Seq::<Dim>::empty() =~= dims@);
    }
    Ok(dims)
}

/// Sorts the dimensions into the canonical order by selection.
fn sort_dims(v: Vec<Dim>) -> (r: Vec<Dim>)
    ensures
        r@ == v@.sort_by(dim_order()),
        r@.to_multiset() == v@.to_multiset(),
{
    let mut rem = v;
    let ghost orig = rem@;
    let mut out: Vec<Dim> = Vec::new();
    while rem.len() > 0
        invariant
            sorted_by(out@, dim_order()),
            forall|x: int, y: int|
                0 <= x < out@.len() && 0 <= y < rem@.len() ==> #[trigger] spec_dim_le(
                    out@[x],
                    rem@[y],
                ),
            out@.to_multiset().add(rem@.to_multiset()) == orig.to_multiset(),
        decreases rem.len(),
    {
        let mut best: usize = 0;
        let mut k: usize = 1;
        while k < rem.len()
            invariant
                rem@.len() > 0,
                best < k <= rem@.len(),
                forall|j: int| 0 <= j < k ==> spec_dim_le(rem@[best as int], #[trigger] rem@[j]),
            decreases rem@.len() - k,
        {
            if !dim_le(&rem[best], &rem[k]) {
                best = k;
            }
            k = k + 1;
        }
        let m = rem.remove(best);
        let ghost old_out = out@;
        let ghost old_rem_ms = rem@.to_multiset().insert(m);
        out.push(m);
        proof {
            assert forall|x: int, y: int|
                0 <= x < out@.len() && 0 <= y < rem@.len() implies #[trigger] spec_dim_le(
                out@[x],
                rem@[y],
            ) by {
                if x < old_out.len() {
                } else {
                    assert(out@[x] == m);
                }
            }
            assert(sorted_by(out@, dim_order()));
            assert(out@.to_multiset() =~= old_out.to_multiset().insert(m));
            assert(out@.to_multiset().add(rem@.to_multiset()) =~= old_out.to_multiset().add(
                rem@.to_multiset().insert(m),
            ));
        }
    }
    proof {
        assert(rem@.to_multiset() =~= Multiset::<Dim>::empty());
        assert(out@.to_multiset() =~= orig.to_multiset());
        lemma_dim_order_total();
        orig.lemma_sort_by_ensures(dim_order());
        lemma_sorted_unique(out@, orig.sort_by(dim_order()), dim_order());
        assert(out@ =~= orig.sort_by(dim_order()));
    }
    out
}

/// Folds the maximal contiguous tail into the copy granule.
fn fold_unit(v: Vec<Dim>, size: usize) -> (r: (usize, Vec<Dim>))
    requires
        clamp1(size as int) * spec_prod1(v@) <= usize::MAX as int,
    ensures
        r.0 as int == spec_fold(v@, size as int).0,
        r.1@ == spec_fold(v@, size as int).1,
{
    let mut work = v;
    let ghost g = work@;
    let mut unit: usize = size;
    let mut nd: usize = work.len();
    let mut stop = false;
    proof {
        assert(g.subrange(0, g.len() as int) =~= g);
        assert(g.subrange(g.len() as int, g.len() as int) =~= Seq::<Dim>::empty());
        assert(spec_prod(Seq::<Dim>::empty()) == 1);
    }
    while !stop && nd > 0
        invariant
            work@ == g,
            nd <= g.len(),
            clamp1(size as int) * spec_prod1(g) <= usize::MAX as int,
            unit as int == size as int * spec_prod(g.subrange(nd as int, g.len() as int)),
            spec_fold(g, size as int) == spec_fold(
                g.subrange(0, nd as int),
                unit as int,
            ),
            stop ==> spec_fold(g.subrange(0, nd as int), unit as int) == (
                unit as int,
                g.subrange(0, nd as int),
            ),
        decreases nd, (if stop {
            0int
        } else {
            1int
        }),
    {
        let d = work[nd - 1];
        let ghost pre = g.subrange(0, nd as int);
        assert(pre.last() == d);
        assert(pre.drop_last() =~= g.subrange(0, nd - 1));
        if d.dst >= 0 && d.src >= 0 && d.dst as usize == unit && d.src as usize == unit {
            proof {
                let suf = g.subrange(nd as int, g.len() as int);
                let suf2 = g.subrange(nd - 1, g.len() as int);
                assert(suf2.drop_first() =~= suf);
                assert(suf2[0] == d);
                assert(spec_prod(suf2) == d.len * spec_prod(suf));
                lemma_prod_le_prod1(suf2);
                lemma_prod1_split(g, nd - 1);
                lemma_prod1_pos(g.subrange(0, nd - 1));
                lemma_prod1_pos(g.subrange(nd - 1, g.len() as int));
                assert(spec_prod1(suf2) <= spec_prod1(g)) by (nonlinear_arith)
                    requires
                        spec_prod1(g) == spec_prod1(g.subrange(0, nd - 1)) * spec_prod1(suf2),
                        spec_prod1(g.subrange(0, nd - 1)) >= 1,
                        spec_prod1(suf2) >= 1,
                ;
                lemma_prod1_pos(g);
                assert(unit * d.len == size as int * spec_prod(suf2)) by (nonlinear_arith)
                    requires
                        unit as int == size as int * spec_prod(suf),
                        spec_prod(suf2) == d.len * spec_prod(suf),
                ;
                assert(size as int * spec_prod(suf2) <= clamp1(size as int) * spec_prod1(g))
                    by (nonlinear_arith)
                    requires
                        0 <= size as int <= clamp1(size as int),
                        0 <= spec_prod(suf2) <= spec_prod1(suf2),
                        spec_prod1(suf2) <= spec_prod1(g),
                ;
            }
            unit = unit * d.len;
            nd = nd - 1;
        } else {
            proof {
                assert(!(pre.last().dst == unit as int && pre.last().src == unit as int));
                assert(spec_fold(pre, unit as int) == (unit as int, pre));
            }
            stop = true;
        }
    }
    proof {
        if !stop {
            assert(g.subrange(0, 0) =~= Seq::<Dim>::empty());
        }
    }
    work.truncate(nd);
    proof {
        assert(work@ == g.subrange(0, nd as int));
    }
    (unit, work)
}

/// Coalesces adjacent contiguous dimension pairs, innermost first.
fn coalesce_dims(v: &Vec<Dim>) -> (r: Vec<Dim>)
    requires
        spec_prod1(v@) <= usize::MAX as int,
    ensures
        r@ == spec_coalesce(v@),
{
    let n = v.len();
    if n == 0 {
        let out: Vec<Dim> = Vec::new();
        return out;
    }
    let mut acc = v[n - 1];
    let mut out_rev: Vec<Dim> = Vec::new();
    let mut i: usize = n - 1;
    while i > 0
        invariant
            n == v@.len(),
            i <= n - 1,
            n >= 1,
            spec_prod1(v@) <= usize::MAX as int,
            spec_coalesce(v@.subrange(i as int, n as int)) == seq![acc] + out_rev@.reverse(),
        decreases i,
    {
        let f = v[i - 1];
        let ghost sub = v@.subrange(i as int, n as int);
        let ghost t = spec_coalesce(sub);
        proof {
            assert(t[0] == acc);
            lemma_prod1_split(v@, i as int);
            lemma_prod1_pos(v@.subrange(0, i as int));
            lemma_prod1_pos(sub);
            assert(v@.subrange(i as int, v@.len() as int) =~= sub);
            assert(spec_prod1(sub) <= spec_prod1(v@)) by (nonlinear_arith)
                requires
                    spec_prod1(v@) == spec_prod1(v@.subrange(0, i as int)) * spec_prod1(sub),
                    spec_prod1(v@.subrange(0, i as int)) >= 1,
                    spec_prod1(sub) >= 1,
            ;
            lemma_coalesce_props(sub);
            // bounds letting the stride products be computed exactly
            assert((acc.dst as i128) * (acc.len as i128) <= i128::MAX && i128::MIN <= (
            acc.dst as i128) * (acc.len as i128)) by (nonlinear_arith)
                requires
                    -(0x8000_0000_0000_0000i128) <= acc.dst as i128 <= 0x7fff_ffff_ffff_ffffi128,
                    0 <= acc.len as i128 <= 0xffff_ffff_ffff_ffffi128,
            ;
            assert((acc.src as i128) * (acc.len as i128) <= i128::MAX && i128::MIN <= (
            acc.src as i128) * (acc.len as i128)) by (nonlinear_arith)
                requires
                    -(0x8000_0000_0000_0000i128) <= acc.src as i128 <= 0x7fff_ffff_ffff_ffffi128,
                    0 <= acc.len as i128 <= 0xffff_ffff_ffff_ffffi128,
            ;
        }
        let prod_d = (acc.dst as i128) * (acc.len as i128);
        let prod_s = (acc.src as i128) * (acc.len as i128);
        let ghost sub2 = v@.subrange(i - 1, n as int);
        proof {
            assert(sub2.drop_first() =~= sub);
            assert(sub2[0] == f);
            assert(sub2.len() >= 2);
        }
        if prod_d == (f.dst as i128) && prod_s == (f.src as i128) {
            proof {
                lemma_clamp_at(t, 0);
                lemma_prod1_pos(t);
                lemma_prod1_split(v@, i - 1);
                lemma_prod1_pos(v@.subrange(0, i - 1));
                lemma_prod1_pos(v@.subrange(i - 1, v@.len() as int));
                assert(v@.subrange(i - 1, v@.len() as int) =~= sub2);
                assert(spec_prod1(sub2) == clamp1(f.len as int) * spec_prod1(sub));
                assert(spec_prod1(sub2) <= spec_prod1(v@)) by (nonlinear_arith)
                    requires
                        spec_prod1(v@) == spec_prod1(v@.subrange(0, i - 1)) * spec_prod1(sub2),
                        spec_prod1(v@.subrange(0, i - 1)) >= 1,
                        spec_prod1(sub2) >= 1,
                ;
                assert(f.len * acc.len <= usize::MAX as int) by (nonlinear_arith)
                    requires
                        0 <= f.len as int <= clamp1(f.len as int),
                        0 <= acc.len as int <= clamp1(acc.len as int),
                        clamp1(acc.len as int) <= spec_prod1(t),
                        spec_prod1(t) <= spec_prod1(sub),
                        spec_prod1(t) >= 1,
                        clamp1(f.len as int) >= 1,
                        clamp1(f.len as int) * spec_prod1(sub) == spec_prod1(sub2),
                        spec_prod1(sub2) <= usize::MAX as int,
                ;
                // the spec takes the merge branch on these dimensions
                assert(t[0].dst * t[0].len == sub2[0].dst && t[0].src * t[0].len == sub2[0].src);
            }
            acc = Dim { len: f.len * acc.len, dst: acc.dst, src: acc.src };
            proof {
                assert(spec_coalesce(sub2) =~= seq![acc] + t.drop_first());
                assert(t.drop_first() =~= out_rev@.reverse());
            }
        } else {
            proof {
                assert(!(t[0].dst * t[0].len == sub2[0].dst && t[0].src * t[0].len
                    == sub2[0].src));
                assert(spec_coalesce(sub2) =~= seq![f] + t);
            }
            let ghost old_rev = out_rev@;
            out_rev.push(acc);
            proof {
                assert(out_rev@.reverse() =~= seq![acc] + old_rev.reverse());
                assert(seq![f] + t =~= seq![f] + out_rev@.reverse());
            }
            acc = f;
        }
        i = i - 1;
    }
    let ghost co = spec_coalesce(v@);
    proof {
        assert(v@.subrange(0, n as int) =~= v@);
        assert(co == seq![acc] + out_rev@.reverse());
    }
    let mut out: Vec<Dim> = Vec::new();
    out.push(acc);
    let m = out_rev.len();
    let mut k: usize = m;
    while k > 0
        invariant
            k <= m,
            m == out_rev@.len(),
            co == seq![acc] + out_rev@.reverse(),
            out@ =~= co.subrange(0, 1 + m - k),
        decreases k,
    {
        k = k - 1;
        out.push(out_rev[k]);
        proof {
            assert(co[1 + m - k - 1] == out_rev@.reverse()[m - k - 1]);
            assert(out_rev@.reverse()[m - k - 1] == out_rev@[k as int]);
            assert(out@ =~= co.subrange(0, 1 + m - k));
        }
    }
    proof {
        assert(co.len() == 1 + m);
        assert(out@ =~= co);
    }
    out
}

/// The granule-fold only ever removes a suffix: what remains is a prefix of
/// its input.
proof fn lemma_fold_prefix(s: Seq<Dim>, unit: int)
    ensures
        spec_fold(s, unit).1.len() <= s.len(),
        spec_fold(s, unit).1 == s.subrange(0, spec_fold(s, unit).1.len() as int),
    decreases s.len(),
{
    if s.len() > 0 && s.last().dst == unit && s.last().src == unit {
        lemma_fold_prefix(s.drop_last(), unit * s.last().len);
        let r = spec_fold(s, unit).1;
        assert(s.drop_last() =~= s.subrange(0, s.len() - 1));
        assert(s.drop_last().subrange(0, r.len() as int) =~= s.subrange(0, r.len() as int));
    } else {
        assert(s.subrange(0, s.len() as int) =~= s);
    }
}

// ---------------------------------------------------------------------------
// The plan object
// ---------------------------------------------------------------------------

/// The normalized execution plan: the atomic copy granule in bytes, and one
/// length and two byte strides for each remaining dimension, index-aligned,
/// outermost first. Built once for a (shape, strides) combination; immutable
/// afterwards, and safe to reuse across launches that share the combination.
#[derive(PartialEq, Eq, Debug)]
pub struct Scheme {
    unit: usize,
    shape: Vec<usize>,
    dst_strides: Vec<isize>,
    src_strides: Vec<isize>,
}

impl View for Scheme {
    type V = SchemeModel;

    closed spec fn view(&self) -> SchemeModel {
        SchemeModel {
            unit: self.unit as int,
            dims: Seq::new(
                self.shape@.len(),
                |i: int|
                    Dim {
                        len: self.shape@[i],
                        dst: self.dst_strides@[i],
                        src: self.src_strides@[i],
                    },
            ),
        }
    }
}

/// Decides the machine-volume precondition of planning: whether the clamped
/// element-count product of the validated dimensions, scaled by the element
/// width, fits a machine word. A pair that fails validation fits trivially
/// (planning stops at the validation error before any arithmetic).
pub fn fits(args: &Args) -> (r: bool)
    ensures
        r == spec_fits(*args),
{
    let dims = match collect_dims(args) {
        Ok(d) => d,
        Err(_) => {
            return true;
        },
    };
    let size = args.dst_layout.dt.size;
    let mut acc: usize = if size == 0 {
        1
    } else {
        size
    };
    assert(acc as int == clamp1(size as int) * spec_prod1(dims@.subrange(0, 0))) by {
        assert(dims@.subrange(0, 0) =~= Seq::<Dim>::empty());
        assert(spec_prod1(Seq::<Dim>::empty()) == 1);
    }
    let n = dims.len();
    let mut i: usize = 0;
    while i < n
        invariant
            n == dims@.len(),
            i <= n,
            spec_validate(*args) == Ok::<Seq<Dim>, SchemeError>(dims@),
            size == args.dst_layout.dt.size,
            acc as int == clamp1(size as int) * spec_prod1(dims@.subrange(0, i as int)),
        decreases n - i,
    {
        let len = dims[i].len;
        let factor: usize = if len == 0 {
            1
        } else {
            len
        };
        let ghost pre = dims@.subrange(0, i as int);
        let ghost pre2 = dims@.subrange(0, i + 1);
        proof {
            lemma_prod1_split(pre2, i as int);
            assert(pre2.subrange(0, i as int) =~= pre);
            assert(pre2.subrange(i as int, i + 1).drop_first() =~= Seq::<Dim>::empty());
            assert(spec_prod1(Seq::<Dim>::empty()) == 1);
            assert(spec_prod1(pre2.subrange(i as int, i + 1)) == clamp1(dims@[i as int].len as int)
                * 1);
            assert(spec_prod1(pre2) == spec_prod1(pre) * clamp1(dims@[i as int].len as int));
        }
        match acc.checked_mul(factor) {
            Some(v) => {
                proof {
                    assert(v as int == clamp1(size as int) * spec_prod1(pre2))
                        by (nonlinear_arith)
                        requires
                            v == acc * factor,
                            acc as int == clamp1(size as int) * spec_prod1(pre),
                            spec_prod1(pre2) == spec_prod1(pre) * (factor as int),
                    ;
                }
                acc = v;
            },
            None => {
                // the clamped prefix product alone no longer fits, and the
                // full product is at least as large
                proof {
                    lemma_prod1_split(dims@, i + 1);
                    lemma_prod1_pos(dims@.subrange(i + 1, dims@.len() as int));
                    lemma_prod1_pos(pre2);
                    assert(dims@.subrange(0, i + 1) == pre2);
                    assert(clamp1(size as int) * spec_prod1(dims@) > usize::MAX as int)
                        by (nonlinear_arith)
                        requires
                            acc * factor > usize::MAX as int,
                            acc as int == clamp1(size as int) * spec_prod1(pre),
                            spec_prod1(pre2) == spec_prod1(pre) * (factor as int),
                            spec_prod1(dims@) == spec_prod1(pre2) * spec_prod1(
                                dims@.subrange(i + 1, dims@.len() as int),
                            ),
                            spec_prod1(dims@.subrange(i + 1, dims@.len() as int)) >= 1,
                            spec_prod1(pre2) >= 1,
                            factor >= 1,
                            acc >= 0,
                    ;
                }
                return false;
            },
        }
        i = i + 1;
    }
    proof {
        assert(dims@.subrange(0, n as int) =~= dims@);
    }
    true
}

impl Scheme {
    #[verifier::type_invariant]
    closed spec fn wf(&self) -> bool {
        self.shape@.len() == self.dst_strides@.len() && self.shape@.len()
            == self.src_strides@.len()
    }

    /// Computes the minimal-dimension plan for the pair of layouts, or the
    /// first error its validation hits.
    pub fn new(args: &Args) -> (r: Result<Scheme, SchemeError>)
        requires
            spec_fits(*args),
        ensures
            match r {
                Ok(s) => spec_scheme(*args) == Ok::<SchemeModel, SchemeError>(s@),
                Err(e) => spec_scheme(*args) == Err::<SchemeModel, SchemeError>(e),
            },
    {
        let dims = match collect_dims(args) {
            Ok(d) => d,
            Err(e) => {
                return Err(e);
            },
        };
        let ghost collected = dims@;
        let size = args.dst_layout.dt.size;
        let sorted = sort_dims(dims);
        let ghost sortedg = sorted@;
        proof {
            lemma_prod_multiset(sortedg, collected);
        }
        let (unit, folded) = fold_unit(sorted, size);
        let ghost fr = spec_fold(sortedg, size as int);
        proof {
            lemma_fold_prefix(sortedg, size as int);
            lemma_prod1_split(sortedg, fr.1.len() as int);
            lemma_prod1_pos(sortedg.subrange(0, fr.1.len() as int));
            lemma_prod1_pos(sortedg.subrange(fr.1.len() as int, sortedg.len() as int));
            assert(sortedg.subrange(0, fr.1.len() as int) == fr.1);
            assert(spec_prod1(fr.1) <= usize::MAX as int) by (nonlinear_arith)
                requires
                    spec_prod1(sortedg) == spec_prod1(fr.1) * spec_prod1(
                        sortedg.subrange(fr.1.len() as int, sortedg.len() as int),
                    ),
                    spec_prod1(fr.1) >= 1,
                    spec_prod1(sortedg.subrange(fr.1.len() as int, sortedg.len() as int)) >= 1,
                    clamp1(size as int) >= 1,
                    clamp1(size as int) * spec_prod1(sortedg) <= usize::MAX as int,
            ;
        }
        let out = coalesce_dims(&folded);
        let ghost co = spec_coalesce(fr.1);
        let n = out.len();
        let mut shape: Vec<usize> = Vec::new();
        let mut dst_strides: Vec<isize> = Vec::new();
        let mut src_strides: Vec<isize> = Vec::new();
        let mut k: usize = 0;
        while k < n
            invariant
                n == out@.len(),
                k <= n,
                shape@.len() == k && dst_strides@.len() == k && src_strides@.len() == k,
                forall|j: int|
                    0 <= j < k ==> shape@[j] == out@[j].len && dst_strides@[j] == out@[j].dst
                        && src_strides@[j] == out@[j].src,
            decreases n - k,
        {
            let d = out[k];
            shape.push(d.len);
            dst_strides.push(d.dst);
            src_strides.push(d.src);
            k = k + 1;
        }
        let s = Scheme { unit, shape, dst_strides, src_strides };
        proof {
            assert(s@.dims =~= co);
        }
        Ok(s)
    }

    /// Number of remaining dimensions of the plan.
    pub fn ndim(&self) -> (r: usize)
        ensures
            r == self@.dims.len(),
    {
        self.shape.len()
    }

    /// Bytes moved as one atomic unit.
    pub fn unit(&self) -> (r: usize)
        ensures
            r as int == self@.unit,
    {
        self.unit
    }

    /// Lengths of the remaining dimensions, outermost first.
    pub fn shape(&self) -> (r: &Vec<usize>)
        ensures
            r@.len() == self@.dims.len(),
            forall|i: int| 0 <= i < r@.len() ==> r@[i] == self@.dims[i].len,
    {
        &self.shape
    }

    /// Destination byte strides, index-aligned with the shape.
    pub fn dst_strides(&self) -> (r: &Vec<isize>)
        ensures
            r@.len() == self@.dims.len(),
            forall|i: int| 0 <= i < r@.len() ==> r@[i] == self@.dims[i].dst,
    {
        proof {
            use_type_invariant(self);
        }
        &self.dst_strides
    }

    /// Source byte strides, index-aligned with the shape.
    pub fn src_strides(&self) -> (r: &Vec<isize>)
        ensures
            r@.len() == self@.dims.len(),
            forall|i: int| 0 <= i < r@.len() ==> r@[i] == self@.dims[i].src,
    {
        proof {
            use_type_invariant(self);
        }
        &self.src_strides
    }
}

// ---------------------------------------------------------------------------
// Laws of the normalization
// ---------------------------------------------------------------------------

/// Total element count of the pair: the product of every unified dimension
/// length from index `i` on (length-1 dimensions included).
pub open spec fn spec_elems(a: Args, i: int) -> int
    decreases a.dst_layout.shape.len() - i,
{
    if i >= a.dst_layout.shape.len() {
        1
    } else {
        (match spec_dim_at(a, i) {
            Ok(d) => d.len as int,
            Err(_) => 1,
        }) * spec_elems(a, i + 1)
    }
}

/// How many unified dimensions from index `i` on have length 1.
pub open spec fn spec_count_ones(a: Args, i: int) -> int
    decreases a.dst_layout.shape.len() - i,
{
    if i >= a.dst_layout.shape.len() {
        0
    } else {
        (match spec_dim_at(a, i) {
            Ok(d) => if d.len == 1 {
                1int
            } else {
                0int
            },
            Err(_) => 0int,
        }) + spec_count_ones(a, i + 1)
    }
}

proof fn lemma_collect_profile(a: Args, i: int)
    requires
        0 <= i,
        spec_collect(a, i) is Ok,
    ensures
        spec_prod(spec_collect(a, i)->Ok_0) == spec_elems(a, i),
        spec_collect(a, i)->Ok_0.len() == (if a.dst_layout.shape.len() - i >= 0 {
            a.dst_layout.shape.len() - i
        } else {
            0
        }) - spec_count_ones(a, i),
    decreases a.dst_layout.shape.len() - i,
{
    if i >= a.dst_layout.shape.len() {
        assert(spec_collect(a, i) == Ok::<Seq<Dim>, SchemeError>(Seq::empty()));
        assert(spec_prod(Seq::<Dim>::empty()) == 1);
        assert(spec_elems(a, i) == 1);
    } else {
        lemma_collect_profile(a, i + 1);
        let d = spec_dim_at(a, i)->Ok_0;
        let rest = spec_collect(a, i + 1)->Ok_0;
        assert(spec_prod(rest) == spec_elems(a, i + 1));
        assert(spec_elems(a, i) == d.len * spec_elems(a, i + 1));
        if d.len != 1 {
            let s = seq![d] + rest;
            assert(spec_collect(a, i)->Ok_0 == s);
            assert(s.drop_first() =~= rest);
            assert(s[0] == d);
            assert(spec_prod(s) == d.len * spec_prod(rest));
            assert(spec_prod(spec_collect(a, i)->Ok_0) == spec_elems(a, i));
        } else {
            assert(spec_collect(a, i)->Ok_0 == rest);
            assert(d.len == 1);
            assert(spec_elems(a, i) == 1 * spec_elems(a, i + 1));
            assert(spec_prod(rest) == spec_elems(a, i));
            assert(spec_prod(spec_collect(a, i)->Ok_0) == spec_elems(a, i));
        }
        assert(spec_collect(a, i)->Ok_0.len() == (a.dst_layout.shape.len() - i)
            - spec_count_ones(a, i));
    }
}

proof fn lemma_prod_last(s: Seq<Dim>)
    requires
        s.len() > 0,
    ensures
        spec_prod(s) == spec_prod(s.drop_last()) * s.last().len,
    decreases s.len(),
{
    if s.len() == 1 {
        assert(s.drop_last() =~= Seq::<Dim>::empty());
        assert(s.drop_first() =~= Seq::<Dim>::empty());
        assert(spec_prod(Seq::<Dim>::empty()) == 1);
        assert(spec_prod(s) == s[0].len * 1);
        assert(s.last() == s[0]);
    } else {
        lemma_prod_last(s.drop_first());
        assert(s.drop_first().drop_last() =~= s.drop_last().drop_first());
        assert(s.drop_last()[0] == s[0]);
        assert(s.drop_first().last() == s.last());
        assert(spec_prod(s) == s[0].len * spec_prod(s.drop_first()));
        assert(spec_prod(s.drop_first()) == spec_prod(s.drop_last().drop_first())
            * s.last().len);
        assert(spec_prod(s.drop_last()) == s[0].len * spec_prod(s.drop_last().drop_first()));
        assert(s[0].len * (spec_prod(s.drop_last().drop_first()) * s.last().len) == (s[0].len
            * spec_prod(s.drop_last().drop_first())) * s.last().len) by (nonlinear_arith);
    }
}

proof fn lemma_fold_volume(s: Seq<Dim>, unit: int)
    ensures
        spec_fold(s, unit).0 * spec_prod(spec_fold(s, unit).1) == unit * spec_prod(s),
    decreases s.len(),
{
    if s.len() > 0 && s.last().dst == unit && s.last().src == unit {
        lemma_fold_volume(s.drop_last(), unit * s.last().len);
        lemma_prod_last(s);
        assert((unit * s.last().len) * spec_prod(s.drop_last()) == unit * (spec_prod(s.drop_last())
            * s.last().len)) by (nonlinear_arith);
    }
}

/// For every valid same-shape pair, the plan covers the data exactly: its
/// dimension count is at most the rank minus the number of length-1
/// dimensions, and granule times remaining-shape product equals total element
/// count times element width.
pub proof fn lemma_scheme_covers(a: Args, s: SchemeModel)
    requires
        spec_fits(a),
        spec_scheme(a) == Ok::<SchemeModel, SchemeError>(s),
    ensures
        s.unit * spec_prod(s.dims) == a.dst_layout.dt.size * spec_elems(a, 0),
        s.dims.len() <= a.dst_layout.shape.len() - spec_count_ones(a, 0),
{
    let dims = spec_validate(a)->Ok_0;
    let size = a.dst_layout.dt.size as int;
    lemma_collect_profile(a, 0);
    lemma_dim_order_total();
    dims.lemma_sort_by_ensures(dim_order());
    let sorted = dims.sort_by(dim_order());
    lemma_prod_multiset(sorted, dims);
    let folded = spec_fold(sorted, size);
    lemma_fold_volume(sorted, size);
    lemma_fold_prefix(sorted, size);
    lemma_prod1_split(sorted, folded.1.len() as int);
    lemma_prod1_pos(sorted.subrange(0, folded.1.len() as int));
    lemma_prod1_pos(sorted.subrange(folded.1.len() as int, sorted.len() as int));
    assert(sorted.subrange(0, folded.1.len() as int) == folded.1);
    assert(spec_prod1(folded.1) <= usize::MAX as int) by (nonlinear_arith)
        requires
            spec_prod1(sorted) == spec_prod1(folded.1) * spec_prod1(
                sorted.subrange(folded.1.len() as int, sorted.len() as int),
            ),
            spec_prod1(folded.1) >= 1,
            spec_prod1(sorted.subrange(folded.1.len() as int, sorted.len() as int)) >= 1,
            clamp1(size) >= 1,
            clamp1(size) * spec_prod1(sorted) <= usize::MAX as int,
    ;
    lemma_coalesce_props(folded.1);
    assert(s.unit == folded.0);
    assert(spec_prod(s.dims) == spec_prod(folded.1));
    assert(s.unit * spec_prod(s.dims) == size * spec_prod(sorted));
    assert(spec_prod(sorted) == spec_elems(a, 0));
    assert(sorted.to_multiset().len() == dims.to_multiset().len());
    assert(sorted.len() == dims.len());
    assert(s.dims.len() <= folded.1.len() <= sorted.len());
    assert(dims.len() == a.dst_layout.shape.len() - spec_count_ones(a, 0));
}

/// The plan is canonical: layouts whose validated dimension lists are
/// permutations of one another (as a reordering of the declared dimensions
/// is) produce identical plans, because the canonical sort admits exactly one
/// arrangement of a dimension multiset.
pub proof fn lemma_scheme_canonical(a: Args, b: Args, da: Seq<Dim>, db: Seq<Dim>)
    requires
        a.dst_layout.dt == b.dst_layout.dt,
        spec_validate(a) == Ok::<Seq<Dim>, SchemeError>(da),
        spec_validate(b) == Ok::<Seq<Dim>, SchemeError>(db),
        da.to_multiset() == db.to_multiset(),
    ensures
        spec_scheme(a) == spec_scheme(b),
{
    lemma_dim_order_total();
    da.lemma_sort_by_ensures(dim_order());
    db.lemma_sort_by_ensures(dim_order());
    lemma_sorted_unique(da.sort_by(dim_order()), db.sort_by(dim_order()), dim_order());
    assert(da.sort_by(dim_order()) == db.sort_by(dim_order()));
}

/// A dimension survives validation's dropping pass when its length is not 1.
pub open spec fn keep_dim() -> spec_fn(Dim) -> bool {
    |d: Dim| d.len != 1
}

/// The unified dimension at each index from `i` on (meaningful when
/// validation succeeds).
pub open spec fn spec_dims_from(a: Args, i: int) -> Seq<Dim> {
    Seq::new(
        if a.dst_layout.shape.len() >= i {
            (a.dst_layout.shape.len() - i) as nat
        } else {
            0
        },
        |j: int| spec_dim_at(a, i + j)->Ok_0,
    )
}

/// What validation collects is exactly the per-index dimension list with the
/// length-1 entries dropped.
proof fn lemma_collect_filter(a: Args, i: int)
    requires
        0 <= i,
        spec_collect(a, i) is Ok,
    ensures
        spec_collect(a, i)->Ok_0 == spec_dims_from(a, i).filter(keep_dim()),
    decreases a.dst_layout.shape.len() - i,
{
    reveal(Seq::filter);
    let rank = a.dst_layout.shape.len() as int;
    if i >= rank {
        assert(spec_dims_from(a, i) =~= Seq::<Dim>::empty());
        assert(Seq::<Dim>::empty().filter(keep_dim()) =~= Seq::<Dim>::empty());
    } else {
        lemma_collect_filter(a, i + 1);
        let d = spec_dim_at(a, i)->Ok_0;
        let rest = spec_collect(a, i + 1)->Ok_0;
        let head = seq![d];
        assert(spec_dims_from(a, i) =~= head + spec_dims_from(a, i + 1));
        Seq::filter_distributes_over_add(head, spec_dims_from(a, i + 1), keep_dim());
        assert(head.drop_last() =~= Seq::<Dim>::empty());
        assert(Seq::<Dim>::empty().filter(keep_dim()) =~= Seq::<Dim>::empty());
        assert(head.filter(keep_dim()) == if keep_dim()(d) {
            Seq::<Dim>::empty().push(d)
        } else {
            Seq::<Dim>::empty()
        });
        if d.len != 1 {
            assert(Seq::<Dim>::empty().push(d) + rest =~= seq![d] + rest);
            assert(spec_collect(a, i)->Ok_0 == seq![d] + rest);
        } else {
            assert(Seq::<Dim>::empty() + rest =~= rest);
            assert(spec_collect(a, i)->Ok_0 == rest);
        }
    }
}

/// Two sequences related index-for-index by a bijection hold the same
/// multiset.
proof fn lemma_perm_multiset(s: Seq<Dim>, t: Seq<Dim>, p: Seq<int>)
    requires
        t.len() == s.len(),
        p.len() == s.len(),
        forall|i: int| 0 <= i < p.len() ==> 0 <= #[trigger] p[i] < s.len(),
        forall|i: int, j: int| 0 <= i < j < p.len() ==> p[i] != p[j],
        forall|i: int| 0 <= i < t.len() ==> #[trigger] t[i] == s[p[i]],
    ensures
        t.to_multiset() == s.to_multiset(),
    decreases s.len(),
{
    if s.len() == 0 {
        assert(t.to_multiset() =~= s.to_multiset());
    } else {
        let n = s.len() as int;
        let k = p[n - 1];
        let s2 = s.remove(k);
        let t2 = t.drop_last();
        let p2 = Seq::new(
            (n - 1) as nat,
            |i: int|
                if p[i] < k {
                    p[i]
                } else {
                    p[i] - 1
                },
        );
        assert forall|i: int| 0 <= i < p2.len() implies 0 <= #[trigger] p2[i] < s2.len() by {
            assert(p[i] != k);
        }
        assert forall|i: int, j: int| 0 <= i < j < p2.len() implies p2[i] != p2[j] by {
            assert(p[i] != p[j]);
            assert(p[i] != k && p[j] != k);
        }
        assert forall|i: int| 0 <= i < t2.len() implies #[trigger] t2[i] == s2[p2[i]] by {
            assert(t[i] == s[p[i]]);
            assert(p[i] != k);
            if p[i] < k {
                assert(s2[p[i]] == s[p[i]]);
            } else {
                assert(s2[p[i] - 1] == s[p[i]]);
            }
        }
        lemma_perm_multiset(s2, t2, p2);
        assert(t =~= t2.push(t.last()));
        assert(t.to_multiset() =~= t2.to_multiset().insert(t.last()));
        assert(s2.to_multiset() =~= s.to_multiset().remove(s[k]));
        assert(t.last() == s[k]);
        assert(s.to_multiset().contains(s[k]));
        assert(t.to_multiset() =~= s.to_multiset());
    }
}

proof fn lemma_filter_count(s: Seq<Dim>, x: Dim)
    ensures
        s.filter(keep_dim()).to_multiset().count(x) == if keep_dim()(x) {
            s.to_multiset().count(x)
        } else {
            0
        },
    decreases s.len(),
{
    reveal(Seq::filter);
    if s.len() == 0 {
        assert(s.filter(keep_dim()) =~= Seq::<Dim>::empty());
        assert(Seq::<Dim>::empty().to_multiset() =~= Multiset::<Dim>::empty());
        assert(s.to_multiset() =~= Multiset::<Dim>::empty());
    } else {
        let dl = s.drop_last();
        lemma_filter_count(dl, x);
        assert(s =~= dl.push(s.last()));
        assert(s.to_multiset() =~= dl.to_multiset().insert(s.last()));
        if keep_dim()(s.last()) {
            assert(s.filter(keep_dim()) == dl.filter(keep_dim()).push(s.last()));
            assert(s.filter(keep_dim()).to_multiset() =~= dl.filter(
                keep_dim(),
            ).to_multiset().insert(s.last()));
        } else {
            assert(s.filter(keep_dim()) == dl.filter(keep_dim()));
        }
    }
}

/// Reordering the declared dimensions of a pair (one permutation applied to
/// the lengths and to both stride lists at once) leaves the validated
/// dimension multiset unchanged; with `lemma_scheme_canonical` this makes the
/// plan invariant under permutation of the input dimension order.
pub proof fn lemma_validate_permutation(a: Args, b: Args, p: Seq<int>, da: Seq<Dim>, db: Seq<Dim>)
    requires
        spec_validate(a) == Ok::<Seq<Dim>, SchemeError>(da),
        spec_validate(b) == Ok::<Seq<Dim>, SchemeError>(db),
        b.dst_layout.shape.len() == a.dst_layout.shape.len(),
        p.len() == a.dst_layout.shape.len(),
        forall|i: int| 0 <= i < p.len() ==> 0 <= #[trigger] p[i] < p.len(),
        forall|i: int, j: int| 0 <= i < j < p.len() ==> p[i] != p[j],
        forall|i: int| 0 <= i < p.len() ==> #[trigger] spec_dim_at(b, i) == spec_dim_at(a, p[i]),
    ensures
        db.to_multiset() == da.to_multiset(),
{
    let sa = spec_dims_from(a, 0);
    let sb = spec_dims_from(b, 0);
    lemma_collect_filter(a, 0);
    lemma_collect_filter(b, 0);
    assert forall|i: int| 0 <= i < sb.len() implies #[trigger] sb[i] == sa[p[i]] by {
        assert(spec_dim_at(b, i) == spec_dim_at(a, p[i]));
    }
    lemma_perm_multiset(sa, sb, p);
    assert forall|x: Dim| #[trigger]
        db.to_multiset().count(x) == da.to_multiset().count(x) by {
        lemma_filter_count(sa, x);
        lemma_filter_count(sb, x);
    }
    assert(db.to_multiset() =~= da.to_multiset());
}

/// Planning a relayout is idempotent: the plan is a function of the layouts
/// alone, so two plans of equal arguments are equal and planning mutates
/// nothing.
pub proof fn lemma_scheme_deterministic(
    a: Args,
    r1: Result<SchemeModel, SchemeError>,
    r2: Result<SchemeModel, SchemeError>,
)
    requires
        r1 == spec_scheme(a),
        r2 == spec_scheme(a),
    ensures
        r1 == r2,
{
}

} // verus!
