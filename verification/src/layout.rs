//! Tensor layout descriptors.
//!
//! A layout is a dtype together with one length and one stride per dimension.
//! A length or a stride may still be an unresolved placeholder while a graph
//! is being assembled; planning requires every entry it touches to be
//! concrete. Strides are signed (a negative stride walks its dimension
//! backwards) and byte-scaled.

use crate::dtype::Dtype;
use vstd::prelude::*;

verus! {

/// A dimension length: concrete, or an unresolved placeholder.
#[derive(Clone, Copy, PartialEq, Eq, Structural, Debug)]
pub enum Extent {
    /// Not yet resolved.
    Dyn,
    /// A concrete number of elements.
    Val(usize),
}

/// A dimension stride: concrete (signed, byte-scaled), or an unresolved
/// placeholder.
#[derive(Clone, Copy, PartialEq, Eq, Structural, Debug)]
pub enum Stride {
    /// Not yet resolved.
    Dyn,
    /// A concrete signed byte offset between neighbours along the dimension.
    Val(isize),
}

/// What unifying two declared lengths of the same logical dimension yields:
/// a placeholder defers to the other side; two concrete lengths must agree.
pub open spec fn spec_merge_extent(a: Extent, b: Extent) -> Option<Extent> {
    match (a, b) {
        (Extent::Dyn, other) => Some(other),
        (other, Extent::Dyn) => Some(other),
        (Extent::Val(x), Extent::Val(y)) => if x == y {
            Some(Extent::Val(x))
        } else {
            None
        },
    }
}

impl Extent {
    /// Unifies two declared lengths of the same logical dimension.
    pub fn merge(a: Extent, b: Extent) -> (r: Option<Extent>)
        ensures
            r == spec_merge_extent(a, b),
    {
        match (a, b) {
            (Extent::Dyn, other) => Some(other),
            (other, Extent::Dyn) => Some(other),
            (Extent::Val(x), Extent::Val(y)) => if x == y {
                Some(Extent::Val(x))
            } else {
                None
            },
        }
    }

    /// The concrete value, if resolved.
    pub fn get_static(&self) -> (r: Option<usize>)
        ensures
            r == (match *self {
                Extent::Dyn => Option::<usize>::None,
                Extent::Val(x) => Some(x),
            }),
    {
        match *self {
            Extent::Dyn => None,
            Extent::Val(x) => Some(x),
        }
    }
}

impl Stride {
    /// The concrete value, if resolved.
    pub fn get_static(&self) -> (r: Option<isize>)
        ensures
            r == (match *self {
                Stride::Dyn => Option::<isize>::None,
                Stride::Val(x) => Some(x),
            }),
    {
        match *self {
            Stride::Dyn => None,
            Stride::Val(x) => Some(x),
        }
    }
}

/// A tensor layout: dtype, one length per dimension, one stride per
/// dimension. A well-formed layout has as many strides as lengths; the
/// planning paths validate this and reject a layout where it fails.
#[derive(Clone, PartialEq, Eq, Debug)]
pub struct TensorLayout {
    /// Element type of the tensor.
    pub dt: Dtype,
    /// Declared length of each dimension, outermost first.
    pub shape: Vec<Extent>,
    /// Signed byte stride of each dimension, index-aligned with `shape`.
    pub strides: Vec<Stride>,
}

impl TensorLayout {
    /// As many strides as lengths.
    pub open spec fn wf(&self) -> bool {
        self.shape.len() == self.strides.len()
    }

    /// Builds a layout from concrete lengths and strides.
    pub fn new(dt: Dtype, shape: &Vec<usize>, strides: &Vec<isize>) -> (r: TensorLayout)
        requires
            shape.len() == strides.len(),
        ensures
            r.wf(),
            r.dt == dt,
            r.shape.len() == shape.len(),
            forall|i: int|
                0 <= i < shape.len() ==> r.shape[i] == Extent::Val(shape[i])
                    && r.strides[i] == Stride::Val(strides[i]),
    {
        let n = shape.len();
        let mut sh: Vec<Extent> = Vec::new();
        let mut st: Vec<Stride> = Vec::new();
        for i in 0..n
            invariant
                n == shape.len() == strides.len(),
                sh.len() == i && st.len() == i,
                forall|j: int|
                    0 <= j < i ==> sh[j] == Extent::Val(shape[j]) && st[j] == Stride::Val(
                        strides[j],
                    ),
        {
            sh.push(Extent::Val(shape[i]));
            st.push(Stride::Val(strides[i]));
        }
        TensorLayout { dt, shape: sh, strides: st }
    }

    /// Builds a layout of the given rank whose every entry is unresolved.
    pub fn new_dyn(dt: Dtype, ndim: usize) -> (r: TensorLayout)
        ensures
            r.wf(),
            r.dt == dt,
            r.shape.len() == ndim,
            forall|i: int|
                0 <= i < ndim ==> r.shape[i] == Extent::Dyn && r.strides[i] == Stride::Dyn,
    {
        let mut sh: Vec<Extent> = Vec::new();
        let mut st: Vec<Stride> = Vec::new();
        for i in 0..ndim
            invariant
                sh.len() == i && st.len() == i,
                forall|j: int| 0 <= j < i ==> sh[j] == Extent::Dyn && st[j] == Stride::Dyn,
        {
            sh.push(Extent::Dyn);
            st.push(Stride::Dyn);
        }
        TensorLayout { dt, shape: sh, strides: st }
    }

    /// Rank of the tensor.
    pub fn ndim(&self) -> (r: usize)
        ensures
            r == self.shape.len(),
    {
        self.shape.len()
    }

    /// Element type of the tensor.
    pub fn dt(&self) -> (r: Dtype)
        ensures
            r == self.dt,
    {
        self.dt
    }
}

/// Product of the lengths from index `i` (inclusive) to the end.
pub open spec fn spec_suffix_elems(shape: Seq<usize>, i: int) -> int
    decreases shape.len() - i,
{
    if i < 0 || i >= shape.len() {
        1
    } else {
        shape[i] * spec_suffix_elems(shape, i + 1)
    }
}

/// The byte stride each dimension of a dense row-major tensor has: the byte
/// width of everything inner to it.
pub open spec fn spec_contiguous_stride(shape: Seq<usize>, size: int, i: int) -> int {
    size * spec_suffix_elems(shape, i + 1)
}

proof fn lemma_mul_shift(a: int, b: int, c: int)
    ensures
        (a * c) * b == a * (b * c),
{
    assert((a * c) * b == a * (b * c)) by (nonlinear_arith);
}

impl TensorLayout {
    /// Builds the dense row-major layout of the given shape: the innermost
    /// dimension is element-contiguous and every outer stride is the byte
    /// width of the block inner to it. Returns `None` when a stride would
    /// overflow the machine word.
    pub fn new_contiguous(dt: Dtype, shape: &Vec<usize>) -> (r: Option<TensorLayout>)
        ensures
            match r {
                Some(l) => {
                    &&& l.wf()
                    &&& l.dt == dt
                    &&& l.shape.len() == shape.len()
                    &&& forall|i: int|
                        0 <= i < shape.len() ==> l.shape[i] == Extent::Val(shape[i])
                            && l.strides[i] == Stride::Val(
                            spec_contiguous_stride(shape@, dt.size as int, i) as isize,
                        )
                },
                None => true,
            },
    {
        let n = shape.len();
        // walk dimensions from innermost to outermost, carrying the byte
        // width of the block inner to the current dimension
        let mut st_rev: Vec<isize> = Vec::new();
        if dt.size > (isize::MAX as usize) {
            return None;
        }
        let mut acc: usize = dt.size;
        let mut k: usize = 0;
        while k < n
            invariant
                n == shape.len(),
                st_rev.len() == k <= n,
                acc <= isize::MAX as usize,
                acc as int == dt.size * spec_suffix_elems(shape@, n - k),
                forall|j: int|
                    0 <= j < k ==> st_rev[j] as int == spec_contiguous_stride(
                        shape@,
                        dt.size as int,
                        n - 1 - j,
                    ),
            decreases n - k,
        {
            let i = n - 1 - k;
            st_rev.push(acc as isize);
            match acc.checked_mul(shape[i]) {
                Some(v) => {
                    if v > (isize::MAX as usize) {
                        // an outer stride would no longer fit the machine word
                        return None;
                    }
                    proof {
                        lemma_mul_shift(dt.size as int, shape@[i as int] as int, spec_suffix_elems(shape@, i + 1));
                        assert(spec_suffix_elems(shape@, i as int) == shape@[i as int]
                            * spec_suffix_elems(shape@, i + 1));
                    }
                    acc = v;
                },
                None => {
                    return None;
                },
            }
            k = k + 1;
        }
        let mut st: Vec<isize> = Vec::new();
        let mut j: usize = n;
        while j > 0
            invariant
                st_rev.len() == n == shape.len(),
                st.len() == n - j,
                j <= n,
                forall|j2: int|
                    0 <= j2 < n ==> st_rev[j2] as int == spec_contiguous_stride(
                        shape@,
                        dt.size as int,
                        n - 1 - j2,
                    ),
                forall|i: int|
                    0 <= i < n - j ==> st[i] as int == spec_contiguous_stride(
                        shape@,
                        dt.size as int,
                        i,
                    ),
            decreases j,
        {
            j = j - 1;
            st.push(st_rev[j]);
        }
        Some(TensorLayout::new(dt, shape, &st))
    }
}

} // verus!
