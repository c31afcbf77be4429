use operators::cache::KernelCache;
use operators::dtype::Dtype;
use operators::error::{LaunchError, SchemeError};
use operators::layout::{Stride, TensorLayout};
use operators::pool::Pool;
use operators::rope::{dispatch, Args, MAX_THREADS_PER_BLOCK};

#[derive(Debug, PartialEq, Eq, Clone)]
struct FakeKernel(&'static str);

#[test]
fn pool_is_last_in_first_out() {
    let mut pool: Pool<u32> = Pool::new();
    assert_eq!(pool.pop(), None);
    pool.push(1);
    pool.push(2);
    assert_eq!(pool.len(), 2);
    assert_eq!(pool.pop(), Some(2));
    assert_eq!(pool.pop(), Some(1));
    assert_eq!(pool.pop(), None);
}

#[test]
fn kernel_round_trip() {
    // a kernel returned under a name is the next one handed out for that
    // name, with no fresh specialization in between
    let mut cache: KernelCache<FakeKernel> = KernelCache::new();
    const NAME: u64 = 42;
    // first sight: nothing pooled, the name is registered
    assert_eq!(cache.get_kernel(NAME), None);
    cache.set_kernel(NAME, FakeKernel("a"));
    assert_eq!(cache.get_kernel(NAME), Some(FakeKernel("a")));
    // pool drained again
    assert_eq!(cache.get_kernel(NAME), None);
    // pooled handles come back most recently returned first
    cache.set_kernel(NAME, FakeKernel("a"));
    cache.set_kernel(NAME, FakeKernel("b"));
    assert_eq!(cache.get_kernel(NAME), Some(FakeKernel("b")));
    assert_eq!(cache.get_kernel(NAME), Some(FakeKernel("a")));
    // names are independent
    assert_eq!(cache.get_kernel(7), None);
    cache.set_kernel(7, FakeKernel("c"));
    cache.set_kernel(NAME, FakeKernel("d"));
    assert_eq!(cache.get_kernel(7), Some(FakeKernel("c")));
    assert_eq!(cache.get_kernel(NAME), Some(FakeKernel("d")));
}

fn rope_args(dt_t: Dtype, dt_p: Dtype, nt: usize, nh: usize, dh: usize) -> Args {
    Args {
        t_layout: TensorLayout::new_contiguous(dt_t, &vec![nt, nh, dh]).unwrap(),
        p_layout: TensorLayout::new_contiguous(dt_p, &vec![nt]).unwrap(),
    }
}

#[test]
fn rope_scheme_is_idempotent_and_within_workspace() {
    let args = rope_args(Dtype::single(), Dtype::u32(), 7, 32, 64);
    let first = args.scheme(0);
    let second = args.scheme(0);
    assert_eq!(first, Ok(0));
    assert_eq!(first, second);
    // an unsupported dtype pair is reported, not approximated
    let bad = rope_args(Dtype::double(), Dtype::u32(), 7, 32, 64);
    assert_eq!(bad.scheme(0), Err(SchemeError::TypeNotSupport));
}

#[test]
fn rope_dispatch_fills_workgroups_with_whole_heads() {
    let args = rope_args(Dtype::single(), Dtype::u32(), 7, 32, 64);
    let d = dispatch(&args).unwrap();
    // 64 elements form 32 rotation pairs; 512 / 32 = 16 heads per workgroup
    assert_eq!(d.local_x, 16);
    assert_eq!(d.local_y, 32);
    assert!(d.local_x * d.local_y <= MAX_THREADS_PER_BLOCK);
    assert_eq!(32 % d.local_x, 0);
    assert_eq!(d.global_x, 7 * 16);
    assert_eq!(d.global_y, 2 * 32);
    // strides are handed to the kernel in element pairs
    assert_eq!(d.st, (32 * 64) as i32 / 2);
    assert_eq!(d.sh, 32);
}

#[test]
fn rope_dispatch_picks_largest_dividing_head_count() {
    // nh = 12, dh = 64: at most 16 heads fit, the largest divisor of 12
    // under that cap is 12 itself
    let d = dispatch(&rope_args(Dtype::single(), Dtype::u32(), 3, 12, 64)).unwrap();
    assert_eq!(d.local_x, 12);
    // nh = 24: 24 does not fit under the cap of 16, so 12 is chosen
    let d = dispatch(&rope_args(Dtype::single(), Dtype::u32(), 3, 24, 64)).unwrap();
    assert_eq!(d.local_x, 12);
}

#[test]
fn rope_dispatch_errors() {
    // pair count that does not divide the thread limit
    let d = dispatch(&rope_args(Dtype::single(), Dtype::u32(), 2, 4, 6));
    assert_eq!(d, Err(LaunchError::Scheme(SchemeError::ShapeNotSupport)));
    // wrong dtype pair
    let d = dispatch(&rope_args(Dtype::half(), Dtype::u32(), 2, 4, 64));
    assert_eq!(d, Err(LaunchError::Scheme(SchemeError::TypeNotSupport)));
    // the head dimension must be element-contiguous
    let mut args = rope_args(Dtype::single(), Dtype::u32(), 2, 4, 64);
    args.t_layout.strides[2] = Stride::Val(8);
    let d = dispatch(&args);
    assert_eq!(d, Err(LaunchError::Scheme(SchemeError::StridesNotSupport)));
    // unresolved geometry cannot launch
    let args = Args {
        t_layout: TensorLayout::new_dyn(Dtype::single(), 3),
        p_layout: TensorLayout::new_dyn(Dtype::u32(), 1),
    };
    assert_eq!(dispatch(&args), Err(LaunchError::Scheme(SchemeError::ShapeNotSupport)));
}
