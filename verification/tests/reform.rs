use digit_layout::types::F16;
use operators::dtype::Dtype;
use operators::error::SchemeError;
use operators::layout::{Extent, Stride, TensorLayout};
use operators::reform::{fits, Args, Scheme};

fn dt_f16() -> Dtype {
    // carry the backend's own tag through; the width is what the planner reads
    Dtype::new(F16.to_u64(), F16.nbytes())
}

fn args(dt: Dtype, shape: &[usize], dst: &[isize], src: &[isize]) -> Args {
    Args {
        dst_layout: TensorLayout::new(dt, &shape.to_vec(), &dst.to_vec()),
        src_layout: TensorLayout::new(dt, &shape.to_vec(), &src.to_vec()),
    }
}

#[test]
fn test_scheme() {
    let shape = [4usize, 3, 2, 1, 2, 3, 4];
    let args = args(
        dt_f16(),
        &shape,
        &[288, 96, 48, 48, 24, 8, 2],
        &[576, 192, 96, 48, 8, 16, 2],
    );
    let scheme = Scheme::new(&args).unwrap();
    assert_eq!(scheme.ndim(), 3);
    assert_eq!(scheme.unit(), 8);
    assert_eq!(scheme.shape(), &vec![24, 2, 3]);
    assert_eq!(scheme.dst_strides(), &vec![48, 24, 8]);
    assert_eq!(scheme.src_strides(), &vec![96, 8, 16]);
}

#[test]
fn fully_contiguous_collapses_to_unit() {
    // matching contiguous layouts coalesce to zero remaining dimensions,
    // with every element inside the granule
    let shape = vec![4usize, 3, 2, 1, 2, 3, 4];
    let dst = TensorLayout::new_contiguous(dt_f16(), &shape).unwrap();
    let src = TensorLayout::new_contiguous(dt_f16(), &shape).unwrap();
    let scheme = Scheme::new(&Args { dst_layout: dst, src_layout: src }).unwrap();
    assert_eq!(scheme.ndim(), 0);
    assert_eq!(scheme.unit(), 4 * 3 * 2 * 1 * 2 * 3 * 4 * 2);
    assert_eq!(scheme.shape(), &Vec::<usize>::new());
}

#[test]
fn plan_covers_all_elements() {
    let shape = [4usize, 3, 2, 1, 2, 3, 4];
    let args = args(
        dt_f16(),
        &shape,
        &[288, 96, 48, 48, 24, 8, 2],
        &[576, 192, 96, 48, 8, 16, 2],
    );
    let scheme = Scheme::new(&args).unwrap();
    let elems: usize = shape.iter().product();
    let remaining: usize = scheme.shape().iter().product();
    assert!(scheme.ndim() <= shape.len() - 1); // one length-1 dimension dropped
    assert_eq!(scheme.unit() * remaining, elems * 2);
}

#[test]
fn plan_is_invariant_under_dimension_permutation() {
    let dt = dt_f16();
    let shape = [4usize, 3, 2, 1, 2, 3, 4];
    let dst = [288isize, 96, 48, 48, 24, 8, 2];
    let src = [576isize, 192, 96, 48, 8, 16, 2];
    let a = args(dt, &shape, &dst, &src);
    // the same dimensions, declared in another order
    let perm = [6usize, 2, 0, 4, 1, 5, 3];
    let shape_p: Vec<usize> = perm.iter().map(|&i| shape[i]).collect();
    let dst_p: Vec<isize> = perm.iter().map(|&i| dst[i]).collect();
    let src_p: Vec<isize> = perm.iter().map(|&i| src[i]).collect();
    let b = args(dt, &shape_p, &dst_p, &src_p);
    let sa = Scheme::new(&a).unwrap();
    let sb = Scheme::new(&b).unwrap();
    assert_eq!(sa.ndim(), sb.ndim());
    assert_eq!(sa.unit(), sb.unit());
    assert_eq!(sa.shape(), sb.shape());
    assert_eq!(sa.dst_strides(), sb.dst_strides());
    assert_eq!(sa.src_strides(), sb.src_strides());
}

#[test]
fn zero_destination_stride_is_reduction() {
    // a length-1 dimension with destination stride 0 is a reduction signal
    // and must fail, never be silently dropped
    let a = args(dt_f16(), &[2, 1], &[2, 0], &[2, 2]);
    assert_eq!(Scheme::new(&a), Err(SchemeError::ReduceNotAllowed));
    // so is a longer dimension with destination stride 0
    let b = args(dt_f16(), &[2, 3], &[0, 2], &[6, 2]);
    assert_eq!(Scheme::new(&b), Err(SchemeError::ReduceNotAllowed));
}

#[test]
fn scheme_validation_errors() {
    let f16 = dt_f16();
    let other = Dtype::new(999, 4);
    // dtype mismatch
    let a = Args {
        dst_layout: TensorLayout::new(f16, &vec![2, 2], &vec![4, 2]),
        src_layout: TensorLayout::new(other, &vec![2, 2], &vec![8, 4]),
    };
    assert_eq!(Scheme::new(&a), Err(SchemeError::DtypeMismatch));
    // rank 1 is rejected: it is a flat copy, not this algorithm's job
    let b = args(f16, &[4], &[2], &[2]);
    assert_eq!(Scheme::new(&b), Err(SchemeError::RankMismatch));
    // ranks must agree
    let c = Args {
        dst_layout: TensorLayout::new(f16, &vec![2, 2], &vec![4, 2]),
        src_layout: TensorLayout::new(f16, &vec![2, 2, 1], &vec![4, 2, 2]),
    };
    assert_eq!(Scheme::new(&c), Err(SchemeError::RankMismatch));
    // declared lengths must unify
    let d = args(f16, &[2, 2], &[4, 2], &[4, 2]);
    let e = Args {
        dst_layout: d.dst_layout.clone(),
        src_layout: TensorLayout::new(f16, &vec![2, 3], &vec![6, 2]),
    };
    assert_eq!(Scheme::new(&e), Err(SchemeError::ShapeNotSupport));
    // a length no side resolves cannot be planned; one resolved side fills
    // the other in
    let mut dyn_dst = TensorLayout::new(f16, &vec![2, 2], &vec![4, 2]);
    dyn_dst.shape[0] = Extent::Dyn;
    let mut dyn_src = TensorLayout::new(f16, &vec![2, 2], &vec![4, 2]);
    dyn_src.shape[0] = Extent::Dyn;
    let f = Args { dst_layout: dyn_dst.clone(), src_layout: dyn_src };
    assert_eq!(Scheme::new(&f), Err(SchemeError::ShapeNotSupport));
    let filled = Args {
        dst_layout: dyn_dst,
        src_layout: TensorLayout::new(f16, &vec![2, 2], &vec![4, 2]),
    };
    assert!(Scheme::new(&filled).is_ok());
    // an unresolved stride cannot be planned
    let mut dyn_stride = TensorLayout::new(f16, &vec![2, 2], &vec![4, 2]);
    dyn_stride.strides[1] = Stride::Dyn;
    let g = Args { dst_layout: dyn_stride, src_layout: TensorLayout::new(f16, &vec![2, 2], &vec![4, 2]) };
    assert_eq!(Scheme::new(&g), Err(SchemeError::StridesNotSupport));
}

#[test]
fn meta_unifies_shapes() {
    let f16 = dt_f16();
    let mut dst = TensorLayout::new(f16, &vec![2, 4], &vec![8, 2]);
    dst.shape[1] = Extent::Dyn;
    let src = TensorLayout::new(f16, &vec![2, 4], &vec![8, 2]);
    let a = Args { dst_layout: dst, src_layout: src };
    let meta = a.meta().unwrap();
    assert_eq!(meta.dt, f16);
    let bad = Args {
        dst_layout: TensorLayout::new(f16, &vec![2, 4], &vec![8, 2]),
        src_layout: TensorLayout::new(f16, &vec![2, 5], &vec![10, 2]),
    };
    assert_eq!(bad.meta().unwrap_err(), SchemeError::ShapeNotSupport);
}

#[test]
fn volume_bound_is_decidable() {
    let shape = [4usize, 3, 2, 1, 2, 3, 4];
    let a = args(
        dt_f16(),
        &shape,
        &[288, 96, 48, 48, 24, 8, 2],
        &[576, 192, 96, 48, 8, 16, 2],
    );
    assert!(fits(&a));
    // a pair whose element count overflows the machine word cannot be planned
    let huge = 1usize << 40;
    let b = args(dt_f16(), &[huge, huge], &[2, 2], &[2, 2]);
    assert!(!fits(&b));
    // a pair that fails validation has nothing to bound
    let c = args(dt_f16(), &[4], &[2], &[2]);
    assert!(fits(&c));
}

#[test]
fn contiguous_strides_are_inner_block_widths() {
    let l = TensorLayout::new_contiguous(Dtype::new(7, 4), &vec![2, 3, 5]).unwrap();
    assert_eq!(l.strides, vec![Stride::Val(60), Stride::Val(20), Stride::Val(4)]);
    assert_eq!(l.shape, vec![Extent::Val(2), Extent::Val(3), Extent::Val(5)]);
}
