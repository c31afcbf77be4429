//! Tuned position-encoding operator: planning and dispatch-parameter
//! selection.
//!
//! The operator applies a rotary position encoding to a `[tokens, heads,
//! head_dim]` tensor, driven by a `[tokens]` vector of positions. Planning
//! validates the dtype pair and needs no workspace; launching picks the
//! workgroup geometry: the largest divisor of the head count such that whole
//! heads fill one workgroup without exceeding the backend's thread limit.
//! Binding and enqueueing the chosen kernel is the backend driver's work, so
//! the result here is the plain set of dispatch parameters it needs.

use crate::dtype::Dtype;
use crate::error::{LaunchError, SchemeError};
use crate::layout::{spec_merge_extent, Extent, Stride, TensorLayout};
use vstd::prelude::*;

verus! {

/// Maximum number of threads one workgroup may hold on this backend.
pub const MAX_THREADS_PER_BLOCK: usize = 512;

/// Arguments of one position-encoding call: the token tensor's layout
/// (`[tokens, heads, head_dim]`) and the position vector's layout
/// (`[tokens]`). Base addresses and the rotation base are the backend's
/// business.
pub struct Args {
    /// Layout of the tensor the encoding is applied to, rank 3.
    pub t_layout: TensorLayout,
    /// Layout of the position vector, rank 1.
    pub p_layout: TensorLayout,
}

/// Scalar facts derived from `Args` while planning; recomputed per call.
#[derive(Clone, Copy, PartialEq, Eq, Structural, Debug)]
pub struct Meta {
    /// Element type of the token tensor.
    pub dt_t: Dtype,
    /// Element type of the position vector.
    pub dt_p: Dtype,
    /// Number of tokens, unified between the two tensors.
    pub nt: Extent,
    /// Number of attention heads.
    pub nh: Extent,
    /// Elements per head.
    pub dh: Extent,
}

/// What deriving the scalar facts yields: ranks 3 and 1, with the token
/// counts of the two tensors unified.
pub open spec fn spec_rope_meta(a: Args) -> Result<Meta, SchemeError> {
    if !(a.t_layout.wf() && a.p_layout.wf() && a.t_layout.shape.len() == 3
        && a.p_layout.shape.len() == 1) {
        Err(SchemeError::RankMismatch)
    } else {
        match spec_merge_extent(a.t_layout.shape[0], a.p_layout.shape[0]) {
            None => Err(SchemeError::ShapeNotSupport),
            Some(nt) => Ok(
                Meta {
                    dt_t: a.t_layout.dt,
                    dt_p: a.p_layout.dt,
                    nt,
                    nh: a.t_layout.shape[1],
                    dh: a.t_layout.shape[2],
                },
            ),
        }
    }
}

impl Args {
    /// Derives the scalar planning facts.
    pub fn meta(&self) -> (r: Result<Meta, SchemeError>)
        ensures
            match r {
                Ok(m) => spec_rope_meta(*self) == Ok::<Meta, SchemeError>(m),
                Err(e) => spec_rope_meta(*self) == Err::<Meta, SchemeError>(e),
            },
    {
        if !(self.t_layout.shape.len() == 3 && self.t_layout.strides.len() == 3
            && self.p_layout.shape.len() == 1 && self.p_layout.strides.len() == 1) {
            return Err(SchemeError::RankMismatch);
        }
        match Extent::merge(self.t_layout.shape[0], self.p_layout.shape[0]) {
            None => Err(SchemeError::ShapeNotSupport),
            Some(nt) => Ok(
                Meta {
                    dt_t: self.t_layout.dt,
                    dt_p: self.p_layout.dt,
                    nt,
                    nh: self.t_layout.shape[1],
                    dh: self.t_layout.shape[2],
                },
            ),
        }
    }

    /// Plans the call: single-precision tokens with 32-bit positions need no
    /// scratch memory; anything else is not implemented by this backend.
    /// Planning is a pure function of the arguments, so repeating it with the
    /// same arguments gives the same answer and has no side effect.
    pub fn scheme(&self, max_workspace_size: usize) -> (r: Result<usize, SchemeError>)
        ensures
            r == spec_rope_scheme(*self),
            r matches Ok(n) ==> n <= max_workspace_size,
    {
        let meta = match self.meta() {
            Ok(m) => m,
            Err(e) => {
                return Err(e);
            },
        };
        if meta.dt_t == Dtype::single() && meta.dt_p == Dtype::u32() {
            Ok(0)
        } else {
            Err(SchemeError::TypeNotSupport)
        }
    }
}

/// What planning yields: zero workspace for the supported dtype pair, the
/// exact error otherwise.
pub open spec fn spec_rope_scheme(a: Args) -> Result<usize, SchemeError> {
    match spec_rope_meta(a) {
        Err(e) => Err(e),
        Ok(m) => if m.dt_t == Dtype::spec_single() && m.dt_p == Dtype::spec_u32() {
            Ok(0usize)
        } else {
            Err(SchemeError::TypeNotSupport)
        },
    }
}

/// Planning is idempotent: it is a function of the arguments alone, so two
/// plans of equal arguments are equal, and planning mutates nothing.
pub proof fn lemma_scheme_idempotent(
    a: Args,
    r1: Result<usize, SchemeError>,
    r2: Result<usize, SchemeError>,
)
    requires
        r1 == spec_rope_scheme(a),
        r2 == spec_rope_scheme(a),
    ensures
        r1 == r2,
{
}

/// Truncating division, as the machine divides signed integers.
pub open spec fn tdiv(a: int, b: int) -> int {
    if a >= 0 {
        a / b
    } else {
        -((-a) / b)
    }
}

/// The largest divisor of `nh` that is at most `max` (1 when none larger
/// qualifies).
pub open spec fn spec_nh_l(nh: int, max: int) -> int
    decreases max,
{
    if max <= 1 {
        1
    } else if nh % max == 0 {
        max
    } else {
        spec_nh_l(nh, max - 1)
    }
}

/// `spec_nh_l` picks a divisor, within the cap, and none larger qualifies.
pub proof fn lemma_nh_l_max(nh: int, max: int)
    requires
        nh >= 1,
        max >= 1,
    ensures
        1 <= spec_nh_l(nh, max) <= max,
        nh % spec_nh_l(nh, max) == 0,
        forall|d: int| spec_nh_l(nh, max) < d <= max ==> #[trigger] (nh % d) != 0,
    decreases max,
{
    if max <= 1 {
    } else if nh % max == 0 {
    } else {
        lemma_nh_l_max(nh, max - 1);
    }
}

/// The dispatch parameters of one launch: a two-dimensional workgroup grid
/// (tokens-by-heads times head elements) and the kernel's element-pair
/// strides.
#[derive(Clone, Copy, PartialEq, Eq, Structural, Debug)]
pub struct Dispatch {
    /// Global work size, first axis: tokens times heads-per-workgroup.
    pub global_x: usize,
    /// Global work size, second axis: workgroup rows times pair count.
    pub global_y: usize,
    /// Local work size, first axis: heads per workgroup.
    pub local_x: usize,
    /// Local work size, second axis: element pairs per head.
    pub local_y: usize,
    /// Token stride of the tensor, in element pairs.
    pub st: i32,
    /// Head stride of the tensor, in element pairs.
    pub sh: i32,
}

/// The dispatch parameters the launch path selects, or the exact error it
/// reports: dtype re-validation, fully static geometry, an element-contiguous
/// head dimension, a pair count that divides the thread limit, and workgroups
/// of whole heads.
pub open spec fn spec_dispatch(a: Args) -> Result<Dispatch, LaunchError> {
    match spec_rope_meta(a) {
        Err(e) => Err(LaunchError::Scheme(e)),
        Ok(m) => if !(m.dt_t == Dtype::spec_single() && m.dt_p == Dtype::spec_u32()) {
            Err(LaunchError::Scheme(SchemeError::TypeNotSupport))
        } else if !(m.nt is Val && m.nh is Val && m.dh is Val) {
            Err(LaunchError::Scheme(SchemeError::ShapeNotSupport))
        } else if !(a.t_layout.strides[0] is Val && a.t_layout.strides[1] is Val
            && a.t_layout.strides[2] is Val && a.p_layout.strides[0] is Val) {
            Err(LaunchError::Scheme(SchemeError::StridesNotSupport))
        } else {
            let nt = m.nt->Val_0;
            let nh = m.nh->Val_0;
            let dh = m.dh->Val_0;
            let st = a.t_layout.strides[0]->Val_0;
            let sh = a.t_layout.strides[1]->Val_0;
            let sd = a.t_layout.strides[2]->Val_0;
            let sp = a.p_layout.strides[0]->Val_0;
            if !(sd == 4 && sp == 4) {
                Err(LaunchError::Scheme(SchemeError::StridesNotSupport))
            } else {
                let dh2 = dh as int / 2;
                let st2 = tdiv(tdiv(st as int, 4), 2);
                let sh2 = tdiv(tdiv(sh as int, 4), 2);
                if dh2 < 1 || (MAX_THREADS_PER_BLOCK as int) % dh2 != 0 || nh < 1 {
                    Err(LaunchError::Scheme(SchemeError::ShapeNotSupport))
                } else if !(i32::MIN <= st2 <= i32::MAX && i32::MIN <= sh2 <= i32::MAX) {
                    Err(LaunchError::Scheme(SchemeError::StridesNotSupport))
                } else {
                    let maxl = if (MAX_THREADS_PER_BLOCK as int) / dh2 < nh as int {
                        (MAX_THREADS_PER_BLOCK as int) / dh2
                    } else {
                        nh as int
                    };
                    let nhl = spec_nh_l(nh as int, maxl);
                    let nhh = nh as int / nhl;
                    if nt * nhl > usize::MAX as int || nhh * dh2 > usize::MAX as int {
                        Err(LaunchError::Scheme(SchemeError::ShapeNotSupport))
                    } else {
                        Ok(
                            Dispatch {
                                global_x: (nt * nhl) as usize,
                                global_y: (nhh * dh2) as usize,
                                local_x: nhl as usize,
                                local_y: dh2 as usize,
                                st: st2 as i32,
                                sh: sh2 as i32,
                            },
                        )
                    }
                }
            }
        },
    }
}

/// Selects the dispatch parameters for one launch: re-validates the
/// arguments, then chooses the largest head-count divisor whose workgroup
/// still fits the thread limit. The chosen geometry satisfies
/// `local_x * local_y <= MAX_THREADS_PER_BLOCK`, `local_x` divides the head
/// count, and no larger divisor under the cap exists, so no head is split
/// across workgroups.
pub fn dispatch(args: &Args) -> (r: Result<Dispatch, LaunchError>)
    ensures
        r == spec_dispatch(*args),
        r matches Ok(d) ==> {
            &&& d.local_x * d.local_y <= MAX_THREADS_PER_BLOCK as int
            &&& d.local_x >= 1
            &&& spec_rope_meta(*args) matches Ok(m) ==> m.nh matches Extent::Val(nh) ==> (nh as int
                % d.local_x as int == 0 && (forall|q: int|
                d.local_x < q <= nh ==> q * d.local_y > MAX_THREADS_PER_BLOCK as int || #[trigger] (
                nh as int % q) != 0))
        },
{
    let meta = match args.meta() {
        Ok(m) => m,
        Err(e) => {
            return Err(LaunchError::Scheme(e));
        },
    };
    if !(meta.dt_t == Dtype::single() && meta.dt_p == Dtype::u32()) {
        return Err(LaunchError::Scheme(SchemeError::TypeNotSupport));
    }
    let nt = match meta.nt.get_static() {
        Some(v) => v,
        None => {
            return Err(LaunchError::Scheme(SchemeError::ShapeNotSupport));
        },
    };
    let nh = match meta.nh.get_static() {
        Some(v) => v,
        None => {
            return Err(LaunchError::Scheme(SchemeError::ShapeNotSupport));
        },
    };
    let dh = match meta.dh.get_static() {
        Some(v) => v,
        None => {
            return Err(LaunchError::Scheme(SchemeError::ShapeNotSupport));
        },
    };
    let st = match args.t_layout.strides[0].get_static() {
        Some(v) => v,
        None => {
            return Err(LaunchError::Scheme(SchemeError::StridesNotSupport));
        },
    };
    let sh = match args.t_layout.strides[1].get_static() {
        Some(v) => v,
        None => {
            return Err(LaunchError::Scheme(SchemeError::StridesNotSupport));
        },
    };
    let sd = match args.t_layout.strides[2].get_static() {
        Some(v) => v,
        None => {
            return Err(LaunchError::Scheme(SchemeError::StridesNotSupport));
        },
    };
    let sp = match args.p_layout.strides[0].get_static() {
        Some(v) => v,
        None => {
            return Err(LaunchError::Scheme(SchemeError::StridesNotSupport));
        },
    };
    if !(sd == 4 && sp == 4) {
        return Err(LaunchError::Scheme(SchemeError::StridesNotSupport));
    }
    let dh2 = dh / 2;
    if dh2 < 1 || MAX_THREADS_PER_BLOCK % dh2 != 0 || nh < 1 {
        return Err(LaunchError::Scheme(SchemeError::ShapeNotSupport));
    }
    let st2 = st / 4 / 2;
    let sh2 = sh / 4 / 2;
    if !(i32::MIN as isize <= st2 && st2 <= i32::MAX as isize && i32::MIN as isize <= sh2 && sh2
        <= i32::MAX as isize) {
        return Err(LaunchError::Scheme(SchemeError::StridesNotSupport));
    }
    let cap = MAX_THREADS_PER_BLOCK / dh2;
    proof {
        vstd::arithmetic::div_mod::lemma_fundamental_div_mod(
            MAX_THREADS_PER_BLOCK as int,
            dh2 as int,
        );
        vstd::arithmetic::div_mod::lemma_mod_division_less_than_divisor(
            MAX_THREADS_PER_BLOCK as int,
            dh2 as int,
        );
        assert(cap as int * dh2 as int <= MAX_THREADS_PER_BLOCK as int);
        // the pair count divides the limit, so at least one head row fits
        assert(cap >= 1) by (nonlinear_arith)
            requires
                dh2 >= 1,
                MAX_THREADS_PER_BLOCK as int % dh2 as int == 0,
                cap as int == MAX_THREADS_PER_BLOCK as int / dh2 as int,
                MAX_THREADS_PER_BLOCK == 512usize,
        ;
    }
    let maxl = if cap < nh {
        cap
    } else {
        nh
    };
    let mut nhl: usize = maxl;
    proof {
        lemma_nh_l_max(nh as int, maxl as int);
    }
    while nh % nhl != 0
        invariant
            1 <= nhl <= maxl,
            nh >= 1,
            spec_nh_l(nh as int, maxl as int) == spec_nh_l(nh as int, nhl as int),
        decreases nhl,
    {
        nhl = nhl - 1;
    }
    proof {
        assert(spec_nh_l(nh as int, nhl as int) == nhl);
    }
    let nhh = nh / nhl;
    let gx = match nt.checked_mul(nhl) {
        Some(v) => v,
        None => {
            return Err(LaunchError::Scheme(SchemeError::ShapeNotSupport));
        },
    };
    let gy = match nhh.checked_mul(dh2) {
        Some(v) => v,
        None => {
            return Err(LaunchError::Scheme(SchemeError::ShapeNotSupport));
        },
    };
    let d = Dispatch { global_x: gx, global_y: gy, local_x: nhl, local_y: dh2, st: st2 as i32, sh: sh2 as i32 };
    proof {
        lemma_nh_l_max(nh as int, maxl as int);
        vstd::arithmetic::div_mod::lemma_fundamental_div_mod(
            MAX_THREADS_PER_BLOCK as int,
            dh2 as int,
        );
        vstd::arithmetic::div_mod::lemma_mod_division_less_than_divisor(
            MAX_THREADS_PER_BLOCK as int,
            dh2 as int,
        );
        assert(nhl as int <= cap as int);
        assert(nhl * dh2 <= MAX_THREADS_PER_BLOCK as int) by (nonlinear_arith)
            requires
                dh2 >= 1,
                nhl as int <= cap as int,
                cap as int * dh2 as int <= MAX_THREADS_PER_BLOCK as int,
        ;
        assert forall|q: int| d.local_x < q <= nh implies q * d.local_y > MAX_THREADS_PER_BLOCK
            as int || #[trigger] (nh as int % q) != 0 by {
            if q * d.local_y <= MAX_THREADS_PER_BLOCK as int {
                assert(q <= cap as int) by (nonlinear_arith)
                    requires
                        dh2 >= 1,
                        q * dh2 as int <= MAX_THREADS_PER_BLOCK as int,
                        cap as int == MAX_THREADS_PER_BLOCK as int / dh2 as int,
                        MAX_THREADS_PER_BLOCK as int == dh2 as int * (MAX_THREADS_PER_BLOCK
                            as int / dh2 as int) + MAX_THREADS_PER_BLOCK as int % dh2 as int,
                        0 <= MAX_THREADS_PER_BLOCK as int % (dh2 as int) < dh2 as int,
                ;
                assert(q <= maxl as int);
            }
        }
    }
    Ok(d)
}

} // verus!
