//! The regions of an N-D integral: one per non-empty set of integral axes, each summing the
//! coefficients left of the stencil along its axes. Their tails take memory, which is checked
//! before they are built.
use vstd::prelude::*;
use vstd::arithmetic::power2::{pow2, lemma_pow2_unfold, lemma_pow2_pos, lemma_pow2_adds};
use vstd::arithmetic::div_mod::{lemma_div_denominator, lemma_hoist_over_denominator, lemma_mod_multiples_vanish, lemma_basic_div};
use vstd::bits::{lemma_usize_shr_is_div, lemma_usize_shl_is_mul};
use crate::layout::{c_stride, c_strides, flat_position, lemma_c_order_in_bounds, product};

verus! {

/// The integral axes, in increasing order: the axes whose integral order (`orders[d]`, 0 for
/// values and derivatives) is positive.
pub open spec fn integral_axes_of(orders: Seq<usize>) -> Seq<usize>
    decreases orders.len(),
{
    if orders.len() == 0 {
        Seq::empty()
    } else if orders.last() > 0 {
        integral_axes_of(orders.drop_last()).push((orders.len() - 1) as usize)
    } else {
        integral_axes_of(orders.drop_last())
    }
}

/// Π_d (1 + m_d) over all axes: the number of tail values per coefficient, plus one (a value or
/// derivative axis contributes the factor 1).
pub open spec fn factor_product(orders: Seq<usize>) -> int
    decreases orders.len(),
{
    if orders.len() == 0 {
        1
    } else {
        factor_product(orders.drop_last()) * (1 + orders.last())
    }
}

/// The largest memory that the tails of all regions may take, in bytes (2 GiB).
pub const MAX_TAIL_BYTES: u64 = 2147483648u64;

/// The memory that the tails of all regions take, in bytes: (Π_d (1 + m_d) − 1) values of
/// eight bytes per coefficient.
pub open spec fn tail_bytes(orders: Seq<usize>, n_coefs: int) -> int {
    (factor_product(orders) - 1) * n_coefs * 8
}

/// The integral axes of a list of per-axis integral orders, in increasing order.
pub fn integral_axes(orders: &Vec<usize>) -> (axes: Vec<usize>)
    ensures
        axes@ == integral_axes_of(orders@),
{
    let mut axes: Vec<usize> = Vec::new();
    let mut d: usize = 0;
    while d < orders.len()
        invariant
            d <= orders@.len(),
            axes@ == integral_axes_of(orders@.take(d as int)),
        decreases orders@.len() - d,
    {
        proof {
            assert(orders@.take(d + 1).drop_last() =~= orders@.take(d as int));
        }
        if orders[d] > 0 {
            axes.push(d);
        }
        d += 1;
    }
    assert(orders@.take(orders@.len() as int) =~= orders@);
    axes
}

/// A factor product is at least 1, and at least that of any prefix.
proof fn lemma_factor_product_prefix(orders: Seq<usize>, k: int)
    requires
        0 <= k <= orders.len(),
    ensures
        1 <= factor_product(orders.take(k)) <= factor_product(orders),
    decreases orders.len(),
{
    if k == orders.len() {
        assert(orders.take(k) =~= orders);
        lemma_factor_product_positive(orders);
    } else {
        lemma_factor_product_prefix(orders.drop_last(), k);
        assert(orders.drop_last().take(k) =~= orders.take(k));
        let p = factor_product(orders.drop_last());
        let z = 1 + orders.last();
        assert(p <= p * z) by (nonlinear_arith)
            requires
                p >= 1,
                z >= 1,
        ;
    }
}

/// A factor product is at least 1.
proof fn lemma_factor_product_positive(orders: Seq<usize>)
    ensures
        factor_product(orders) >= 1,
    decreases orders.len(),
{
    if orders.len() > 0 {
        lemma_factor_product_positive(orders.drop_last());
        let p = factor_product(orders.drop_last());
        let z = 1 + orders.last();
        assert(p * z >= 1) by (nonlinear_arith)
            requires
                p >= 1,
                z >= 1,
        ;
    }
}

/// Whether the tails of all regions fit in `MAX_TAIL_BYTES`, for per-axis integral orders
/// `orders` and `n_coefs` extended coefficients. Computed exactly in integers; when they fit
/// and there is a coefficient, Π_d (1 + m_d) is at most 2^28 + 1.
pub fn tails_fit(orders: &Vec<usize>, n_coefs: usize) -> (r: bool)
    ensures
        r == (tail_bytes(orders@, n_coefs as int) <= MAX_TAIL_BYTES),
        r == ((factor_product(orders@) - 1) * n_coefs * 8 <= 2147483648),
        r && n_coefs >= 1 ==> factor_product(orders@) <= 268435457,
{
    proof {
        lemma_factor_product_positive(orders@);
    }
    if n_coefs == 0 {
        assert(tail_bytes(orders@, 0) == 0) by (nonlinear_arith)
            requires
                tail_bytes(orders@, 0) == (factor_product(orders@) - 1) * 0 * 8,
        ;
        return true;
    }
    // the product so far; beyond 2^31 the tails cannot fit, whatever the remaining factors
    let mut p: u128 = 1;
    let mut d: usize = 0;
    while d < orders.len()
        invariant
            d <= orders@.len(),
            n_coefs >= 1,
            p == factor_product(orders@.take(d as int)),
            p <= 2147483648,
        decreases orders@.len() - d,
    {
        proof {
            assert(orders@.take(d + 1).drop_last() =~= orders@.take(d as int));
            assert(orders@.take(d + 1).last() == orders@[d as int]);
        }
        let factor: u128 = orders[d] as u128 + 1;
        assert(p * factor <= 2147483648 * (u64::MAX as int + 1)) by (nonlinear_arith)
            requires
                p <= 2147483648,
                factor <= u64::MAX as int + 1,
        ;
        let next: u128 = p * factor;
        if next > 2147483648 {
            proof {
                lemma_factor_product_prefix(orders@, d + 1);
                let f = factor_product(orders@);
                assert(tail_bytes(orders@, n_coefs as int) > MAX_TAIL_BYTES) by (nonlinear_arith)
                    requires
                        f > 2147483648,
                        n_coefs >= 1,
                        tail_bytes(orders@, n_coefs as int) == (f - 1) * n_coefs * 8,
                ;
            }
            return false;
        }
        p = next;
        d += 1;
    }
    assert(orders@.take(orders@.len() as int) =~= orders@);
    assert((p - 1) * n_coefs * 8 <= 2147483648 * (u64::MAX as int + 1) * 8) by (nonlinear_arith)
        requires
            1 <= p <= 2147483648,
            n_coefs <= u64::MAX,
    ;
    let bytes: u128 = (p - 1) * (n_coefs as u128) * 8;
    let fits = bytes <= MAX_TAIL_BYTES as u128;
    if fits {
        assert(p <= 268435457) by (nonlinear_arith)
            requires
                (p - 1) * n_coefs * 8 <= 2147483648,
                n_coefs >= 1,
                p >= 1,
        ;
    }
    fits
}

/// Whether bit b of a region mask is set (bit b stands for the b-th integral axis).
pub open spec fn mask_bit(mask: usize, b: int) -> bool {
    (mask as nat / pow2(b as nat)) % 2 == 1
}

/// The axes of the region with a given mask: the integral axes (in increasing order) whose bit
/// is set.
pub open spec fn region_axes(integral: Seq<usize>, mask: usize) -> Seq<usize>
    decreases integral.len(),
{
    if integral.len() == 0 {
        Seq::empty()
    } else if mask_bit(mask, integral.len() - 1) {
        region_axes(integral.drop_last(), mask).push(integral.last())
    } else {
        region_axes(integral.drop_last(), mask)
    }
}

/// The number of moments of a region: the product of the integral orders of its axes.
pub open spec fn moments_of(orders: Seq<usize>, axes: Seq<usize>) -> int
    decreases axes.len(),
{
    if axes.len() == 0 {
        1
    } else {
        moments_of(orders, axes.drop_last()) * orders[axes.last() as int]
    }
}

/// One region of an integral evaluation, without its tail.
pub struct RegionPlan {
    /// Per axis: whether it belongs to the region
    pub in_region: Vec<bool>,
    /// The axes of the region, in increasing order
    pub axes: Vec<usize>,
    /// Number of moments per coefficient: the product of the integral orders of the region's axes
    pub moments: usize,
}

/// The tails of the regions would not fit in `MAX_TAIL_BYTES`.
#[derive(Clone, Copy, Debug, PartialEq, Eq, Structural)]
pub struct TailsTooLarge;

/// The regions of an integral evaluation for per-axis integral orders `orders` (0 for values
/// and derivatives) and `n_coefs` extended coefficients: none without integral axes; otherwise,
/// after checking that all tails fit in `MAX_TAIL_BYTES`, one per non-empty set of integral
/// axes, the one of mask i (bit b ↔ the b-th integral axis) at position i − 1.
pub fn plan_regions(orders: &Vec<usize>, n_coefs: usize) -> (r: Result<Vec<RegionPlan>, TailsTooLarge>)
    requires
        n_coefs >= 1,
    ensures
        ({
            let integral = integral_axes_of(orders@);
            &&& integral.len() == 0 ==> (r matches Ok(plans) && plans@.len() == 0)
            &&& integral.len() > 0 ==> (r is Err <==> tail_bytes(orders@, n_coefs as int)
                > MAX_TAIL_BYTES)
            &&& integral.len() > 0 ==> (r matches Ok(plans) ==> {
                &&& plans@.len() == pow2(integral.len()) - 1
                &&& forall|i: int|
                    0 <= i < plans@.len() ==> {
                        let plan = #[trigger] plans@[i];
                        &&& plan.axes@ == region_axes(integral, (i + 1) as usize)
                        &&& plan.in_region@.len() == orders@.len()
                        &&& forall|d: int|
                            0 <= d < orders@.len() ==> (plan.in_region@[d] <==> plan.axes@.contains(
                                d as usize,
                            ))
                        &&& plan.moments == moments_of(orders@, plan.axes@)
                    }
            })
        }),
{
    let n_dims: usize = orders.len();
    let integral = integral_axes(orders);
    let r: usize = integral.len();
    if r == 0 {
        return Ok(Vec::new());
    }
    if !tails_fit(orders, n_coefs) {
        return Err(TailsTooLarge);
    }
    proof {
        lemma_integral_axes_facts(orders@);
        assert forall|j: int| 0 <= j < r implies integral@[j] < orders@.len() && orders@[integral@[j] as int] >= 1 by {}
        lemma_pow2_le_factor_product(orders@);
        lemma_integral_moments_le_factor_product(orders@);
        assert(pow2(r as nat) <= 268435457);
        assert(r < 29) by {
            if r >= 29 {
                lemma_pow2_monotone(29, r as nat);
                lemma_pow2_29();
            }
        }
        lemma_pow2_pos(r as nat);
        lemma_usize_shl_is_mul(1, r);
    }
    let count: usize = 1usize << r;
    let mut regions: Vec<RegionPlan> = Vec::new();
    let mut mask: usize = 1;
    while mask < count
        invariant
            1 <= mask <= count,
            count == pow2(r as nat),
            count <= 268435457,
            r < 29,
            r == integral@.len(),
            integral@ == integral_axes_of(orders@),
            n_dims == orders@.len(),
            forall|j: int| 0 <= j < r ==> integral@[j] < n_dims && orders@[integral@[j] as int] >= 1,
            moments_of(orders@, integral@) <= 268435457,
            regions@.len() == mask - 1,
            forall|i: int|
                0 <= i < regions@.len() ==> {
                    let plan = #[trigger] regions@[i];
                    &&& plan.axes@ == region_axes(integral@, (i + 1) as usize)
                    &&& plan.in_region@.len() == orders@.len()
                    &&& forall|d: int|
                        0 <= d < orders@.len() ==> (plan.in_region@[d] <==> plan.axes@.contains(
                            d as usize,
                        ))
                    &&& plan.moments == moments_of(orders@, plan.axes@)
                },
        decreases count - mask,
    {
        // the integral axes whose bit is set, in increasing order, and their moments
        let mut axes: Vec<usize> = Vec::new();
        let mut moments: usize = 1;
        let mut b: usize = 0;
        while b < r
            invariant
                b <= r,
                r < 29,
                r == integral@.len(),
                n_dims == orders@.len(),
                forall|j: int| 0 <= j < r ==> integral@[j] < n_dims && orders@[integral@[j] as int] >= 1,
                moments_of(orders@, integral@) <= 268435457,
                axes@ == region_axes(integral@.take(b as int), mask),
                moments == moments_of(orders@, axes@),
                forall|j: int| 0 <= j < axes@.len() ==> axes@[j] < n_dims,
            decreases r - b,
        {
            proof {
                let t = integral@.take(b + 1);
                assert(t.drop_last() =~= integral@.take(b as int));
                assert(t.last() == integral@[b as int]);
                lemma_usize_shr_is_div(mask, b);
                let x = mask >> b;
                assert((x & 1 == 1) == (x % 2 == 1)) by (bit_vector);
                lemma_region_moments_le(orders@, integral@, b + 1, mask);
                lemma_prefix_moments_le(orders@, integral@, b + 1);
            }
            if (mask >> b) & 1 == 1 {
                let d: usize = integral[b];
                proof {
                    assert(region_axes(integral@.take(b + 1), mask) == axes@.push(d));
                    assert(axes@.push(d).drop_last() =~= axes@);
                }
                moments = moments * orders[d];
                axes.push(d);
            }
            b += 1;
        }
        assert(integral@.take(r as int) =~= integral@);
        // membership of each axis
        let mut in_region: Vec<bool> = Vec::new();
        let mut d: usize = 0;
        while d < n_dims
            invariant
                d <= n_dims,
                in_region@.len() == d,
                forall|e: int| 0 <= e < d ==> in_region@[e] == false,
            decreases n_dims - d,
        {
            in_region.push(false);
            d += 1;
        }
        let mut a: usize = 0;
        while a < axes.len()
            invariant
                a <= axes@.len(),
                in_region@.len() == n_dims,
                forall|j: int| 0 <= j < axes@.len() ==> axes@[j] < n_dims,
                forall|e: int|
                    0 <= e < n_dims ==> (in_region@[e] <==> exists|j: int|
                        0 <= j < a && #[trigger] axes@[j] == e as usize),
            decreases axes@.len() - a,
        {
            let at: usize = axes[a];
            in_region.set(at, true);
            a += 1;
        }
        regions.push(RegionPlan { in_region, axes, moments });
        mask += 1;
    }
    Ok(regions)
}

/// pow2 is monotone.
proof fn lemma_pow2_monotone(a: nat, b: nat)
    requires
        a <= b,
    ensures
        pow2(a) <= pow2(b),
    decreases b,
{
    if a < b {
        lemma_pow2_monotone(a, (b - 1) as nat);
        lemma_pow2_unfold(b);
        lemma_pow2_pos((b - 1) as nat);
    }
}

/// 2^29 exceeds the largest factor product for which tails fit.
proof fn lemma_pow2_29()
    ensures
        pow2(29) > 268435457,
{
    vstd::arithmetic::power2::lemma2_to64();
}

/// What the integral axes are: strictly increasing, within the axes, exactly those of positive
/// order.
pub proof fn lemma_integral_axes_facts(orders: Seq<usize>)
    requires
        orders.len() <= usize::MAX,
    ensures
        ({
            let integral = integral_axes_of(orders);
            &&& forall|j: int|
                0 <= j < integral.len() ==> integral[j] < orders.len() && orders[integral[j] as int]
                    >= 1
            &&& forall|j: int, k: int| 0 <= j < k < integral.len() ==> integral[j] < integral[k]
            &&& forall|d: int|
                0 <= d < orders.len() ==> ((exists|j: int|
                    0 <= j < integral.len() && #[trigger] integral[j] as int == d) <==> orders[d] > 0)
        }),
    decreases orders.len(),
{
    if orders.len() > 0 {
        let prev = orders.drop_last();
        lemma_integral_axes_facts(prev);
        let ip = integral_axes_of(prev);
        let integral = integral_axes_of(orders);
        let n = orders.len() - 1;
        assert forall|j: int| 0 <= j < ip.len() implies integral[j] == ip[j] && prev[ip[j] as int]
            == orders[ip[j] as int] by {}
        if orders.last() > 0 {
            assert(integral == ip.push(n as usize));
            assert(integral[ip.len() as int] == n);
        } else {
            assert(integral == ip);
        }
        assert forall|d: int| 0 <= d < orders.len() implies ((exists|j: int|
            0 <= j < integral.len() && #[trigger] integral[j] as int == d) <==> orders[d] > 0) by {
            if d < n {
                assert(prev[d] == orders[d]);
                if exists|j: int| 0 <= j < integral.len() && #[trigger] integral[j] as int == d {
                    let j = choose|j: int| 0 <= j < integral.len() && #[trigger] integral[j] as int == d;
                    if j == ip.len() {
                        assert(integral[j] == n);
                    } else {
                        assert(ip[j] as int == d);
                    }
                }
                if orders[d] > 0 {
                    let j = choose|j: int| 0 <= j < ip.len() && #[trigger] ip[j] as int == d;
                    assert(integral[j] as int == d);
                }
            } else {
                if orders[d] > 0 {
                    assert(integral[ip.len() as int] as int == d);
                }
                if exists|j: int| 0 <= j < integral.len() && #[trigger] integral[j] as int == d {
                    let j = choose|j: int| 0 <= j < integral.len() && #[trigger] integral[j] as int == d;
                    if j < ip.len() {
                        assert(ip[j] < prev.len());
                    }
                }
            }
        }
    }
}

/// There are at least as many halvings of the factor product as integral axes:
/// 2^(number of integral axes) ≤ Π_d (1 + m_d).
proof fn lemma_pow2_le_factor_product(orders: Seq<usize>)
    ensures
        pow2(integral_axes_of(orders).len()) <= factor_product(orders),
    decreases orders.len(),
{
    if orders.len() == 0 {
        vstd::arithmetic::power2::lemma2_to64();
    } else {
        let prev = orders.drop_last();
        lemma_pow2_le_factor_product(prev);
        lemma_factor_product_positive(prev);
        let k = integral_axes_of(prev).len();
        let p = factor_product(prev);
        let z = 1 + orders.last();
        let q = pow2(k) as int;
        if orders.last() > 0 {
            lemma_pow2_unfold(k + 1);
            assert(integral_axes_of(orders).len() == k + 1);
            assert(2 * q <= p * z) by (nonlinear_arith)
                requires
                    0 <= q <= p,
                    z >= 2,
            ;
        } else {
            assert(p * z == p) by (nonlinear_arith)
                requires
                    z == 1,
            ;
        }
    }
}

/// The moments of a set of axes depend only on the orders of those axes.
proof fn lemma_moments_same_orders(o1: Seq<usize>, o2: Seq<usize>, axes: Seq<usize>)
    requires
        forall|j: int| 0 <= j < axes.len() ==> axes[j] < o1.len() && axes[j] < o2.len() && o1[axes[j] as int] == o2[axes[j] as int],
    ensures
        moments_of(o1, axes) == moments_of(o2, axes),
    decreases axes.len(),
{
    if axes.len() > 0 {
        lemma_moments_same_orders(o1, o2, axes.drop_last());
    }
}

/// The moments of all integral axes are at most the factor product.
proof fn lemma_integral_moments_le_factor_product(orders: Seq<usize>)
    requires
        orders.len() <= usize::MAX,
    ensures
        moments_of(orders, integral_axes_of(orders)) <= factor_product(orders),
        moments_of(orders, integral_axes_of(orders)) >= 1,
    decreases orders.len(),
{
    if orders.len() > 0 {
        let prev = orders.drop_last();
        lemma_integral_moments_le_factor_product(prev);
        lemma_integral_axes_facts(prev);
        lemma_factor_product_positive(prev);
        let ip = integral_axes_of(prev);
        lemma_moments_same_orders(orders, prev, ip);
        let a = moments_of(prev, ip);
        let p = factor_product(prev);
        let z = orders.last() as int;
        if orders.last() > 0 {
            let integral = integral_axes_of(orders);
            assert(integral.drop_last() =~= ip);
            assert(a * z <= p * (1 + z)) by (nonlinear_arith)
                requires
                    1 <= a <= p,
                    z >= 1,
            ;
            assert(a * z >= 1) by (nonlinear_arith)
                requires
                    1 <= a,
                    z >= 1,
            ;
        } else {
            assert(p * (1 + z) == p) by (nonlinear_arith)
                requires
                    z == 0,
            ;
        }
    }
}

/// The moments of the first k integral axes are at most those of all of them.
proof fn lemma_prefix_moments_le(orders: Seq<usize>, integral: Seq<usize>, k: int)
    requires
        0 <= k <= integral.len(),
        forall|j: int| 0 <= j < integral.len() ==> integral[j] < orders.len() && orders[integral[j] as int] >= 1,
    ensures
        1 <= moments_of(orders, integral.take(k)) <= moments_of(orders, integral),
    decreases integral.len(),
{
    if k == integral.len() {
        assert(integral.take(k) =~= integral);
        if integral.len() > 0 {
            lemma_prefix_moments_le(orders, integral.drop_last(), integral.len() - 1);
            assert(integral.drop_last().take(integral.len() - 1) =~= integral.drop_last());
            let a = moments_of(orders, integral.drop_last());
            let z = orders[integral.last() as int] as int;
            assert(a * z >= 1) by (nonlinear_arith)
                requires
                    a >= 1,
                    z >= 1,
            ;
        }
    } else {
        lemma_prefix_moments_le(orders, integral.drop_last(), k);
        assert(integral.drop_last().take(k) =~= integral.take(k));
        lemma_prefix_moments_le(orders, integral.drop_last(), integral.len() - 1);
        assert(integral.drop_last().take(integral.len() - 1) =~= integral.drop_last());
        let a = moments_of(orders, integral.drop_last());
        let z = orders[integral.last() as int] as int;
        assert(a <= a * z) by (nonlinear_arith)
            requires
                a >= 1,
                z >= 1,
        ;
    }
}

/// The moments of a region within the first k integral axes are at most those of all of them.
proof fn lemma_region_moments_le(orders: Seq<usize>, integral: Seq<usize>, k: int, mask: usize)
    requires
        0 <= k <= integral.len(),
        forall|j: int| 0 <= j < integral.len() ==> integral[j] < orders.len() && orders[integral[j] as int] >= 1,
    ensures
        1 <= moments_of(orders, region_axes(integral.take(k), mask)) <= moments_of(
            orders,
            integral.take(k),
        ),
    decreases k,
{
    let t = integral.take(k);
    if k > 0 {
        lemma_region_moments_le(orders, integral, k - 1, mask);
        assert(t.drop_last() =~= integral.take(k - 1));
        let a = moments_of(orders, region_axes(integral.take(k - 1), mask));
        let b = moments_of(orders, integral.take(k - 1));
        let z = orders[t.last() as int] as int;
        assert(a * z <= b * z && a <= b * z && a * z >= 1) by (nonlinear_arith)
            requires
                1 <= a <= b,
                z >= 1,
        ;
        if mask_bit(mask, k - 1) {
            assert(region_axes(t, mask).drop_last() =~= region_axes(integral.take(k - 1), mask));
        }
    }
}

/// Two different masks below 2^r differ in one of their r lowest bits.
proof fn lemma_masks_differ_in_a_bit(m1: usize, m2: usize, r: nat)
    requires
        m1 != m2,
        m1 < pow2(r),
        m2 < pow2(r),
    ensures
        exists|b: int| 0 <= b < r && #[trigger] mask_bit(m1, b) != mask_bit(m2, b),
    decreases r,
{
    vstd::arithmetic::power2::lemma2_to64();
    if m1 % 2 != m2 % 2 {
        assert(pow2(0) == 1);
        assert(m1 as nat / 1 == m1 as nat);
        assert(m2 as nat / 1 == m2 as nat);
        assert(mask_bit(m1, 0) != mask_bit(m2, 0));
        if r == 0 {
            assert(false);
        }
    } else {
        let h1 = (m1 / 2) as usize;
        let h2 = (m2 / 2) as usize;
        assert(h1 != h2);
        assert(r > 0) by {
            if r == 0 {
                assert(pow2(0) == 1);
            }
        }
        lemma_pow2_unfold(r);
        lemma_masks_differ_in_a_bit(h1, h2, (r - 1) as nat);
        let b = choose|b: int| 0 <= b < r - 1 && #[trigger] mask_bit(h1, b) != mask_bit(h2, b);
        lemma_pow2_pos(b as nat);
        lemma_pow2_unfold((b + 1) as nat);
        lemma_div_denominator(m1 as int, 2, pow2(b as nat) as int);
        lemma_div_denominator(m2 as int, 2, pow2(b as nat) as int);
        assert(mask_bit(m1, b + 1) != mask_bit(m2, b + 1));
    }
}

/// Membership in a region: when the integral axes increase strictly, the b-th of them belongs
/// to the region of a mask exactly when bit b of the mask is set, and every axis of the region
/// is an integral axis.
proof fn lemma_region_membership(integral: Seq<usize>, mask: usize)
    requires
        forall|j: int, k: int| 0 <= j < k < integral.len() ==> integral[j] < integral[k],
    ensures
        forall|b: int|
            0 <= b < integral.len() ==> (region_axes(integral, mask).contains(#[trigger] integral[b])
                <==> mask_bit(mask, b)),
        forall|k: int|
            0 <= k < region_axes(integral, mask).len() ==> integral.contains(
                #[trigger] region_axes(integral, mask)[k],
            ),
        forall|j: int, k: int|
            0 <= j < k < region_axes(integral, mask).len() ==> region_axes(integral, mask)[j]
                < region_axes(integral, mask)[k],
        forall|k: int|
            0 <= k < region_axes(integral, mask).len() ==> region_axes(integral, mask)[k]
                <= integral.last(),
    decreases integral.len(),
{
    if integral.len() > 0 {
        let prev = integral.drop_last();
        lemma_region_membership(prev, mask);
        let rp = region_axes(prev, mask);
        let ra = region_axes(integral, mask);
        let n = integral.len() - 1;
        assert forall|k: int| 0 <= k < rp.len() implies rp[k] < integral.last() by {
            let j = choose|j: int| 0 <= j < prev.len() && prev[j] == rp[k];
            assert(integral[j] < integral[n]);
        }
        if mask_bit(mask, n) {
            assert(ra == rp.push(integral.last()));
        } else {
            assert(ra == rp);
        }
        assert forall|b: int| 0 <= b < integral.len() implies (ra.contains(#[trigger] integral[b])
            <==> mask_bit(mask, b)) by {
            if b < n {
                assert(prev[b] == integral[b]);
                assert(integral[b] < integral[n]);
                if ra.contains(integral[b]) {
                    let k = choose|k: int| 0 <= k < ra.len() && ra[k] == integral[b];
                    if k < rp.len() {
                        assert(rp.contains(prev[b]));
                    }
                }
                if rp.contains(prev[b]) {
                    let k = choose|k: int| 0 <= k < rp.len() && rp[k] == prev[b];
                    assert(ra[k] == integral[b]);
                }
            } else {
                if mask_bit(mask, n) {
                    assert(ra[rp.len() as int] == integral[b]);
                } else if ra.contains(integral[b]) {
                    let k = choose|k: int| 0 <= k < ra.len() && ra[k] == integral[b];
                    assert(rp[k] < integral.last());
                }
            }
        }
        assert forall|k: int| 0 <= k < ra.len() implies integral.contains(#[trigger] ra[k]) by {
            if k < rp.len() {
                let j = choose|j: int| 0 <= j < prev.len() && prev[j] == rp[k];
                assert(integral[j] == ra[k]);
            } else {
                assert(integral[n] == ra[k]);
            }
        }
        assert forall|k: int| 0 <= k < ra.len() implies ra[k] <= integral.last() by {
            if k < rp.len() {
                assert(rp[k] < integral.last());
            }
        }
    }
}

/// Law of the region of a mask: the b-th integral axis belongs to it exactly when bit b of the
/// mask (the remainder of mask / 2^b on division by 2) is set.
pub proof fn lemma_region_of_mask(orders: Seq<usize>, mask: usize, b: int)
    requires
        orders.len() <= usize::MAX,
        0 <= b < integral_axes_of(orders).len(),
    ensures
        region_axes(integral_axes_of(orders), mask).contains(integral_axes_of(orders)[b]) <==> (mask
            as nat / pow2(b as nat)) % 2 == 1,
{
    lemma_integral_axes_facts(orders);
    lemma_region_membership(integral_axes_of(orders), mask);
}

/// Law of the regions: for integral orders `orders`, the region of every mask from 1 to
/// 2^r − 1 (r integral axes) has at least one axis, its axes are integral axes in increasing
/// order, and two different masks give regions with different axes. With 2^r − 1 regions (see
/// `plan_regions`), there is thus one per non-empty set of integral axes.
pub proof fn lemma_regions_are_distinct_nonempty_sets(orders: Seq<usize>, m1: usize, m2: usize)
    requires
        orders.len() <= usize::MAX,
        1 <= m1 < pow2(integral_axes_of(orders).len()),
        1 <= m2 < pow2(integral_axes_of(orders).len()),
    ensures
        ({
            let integral = integral_axes_of(orders);
            let axes = region_axes(integral, m1);
            &&& axes.len() >= 1
            &&& forall|k: int| 0 <= k < axes.len() ==> orders[#[trigger] axes[k] as int] > 0 && axes[k]
                < orders.len()
            &&& forall|j: int, k: int| 0 <= j < k < axes.len() ==> axes[j] < axes[k]
            &&& m1 != m2 ==> axes != region_axes(integral, m2)
        }),
{
    let integral = integral_axes_of(orders);
    let r = integral.len();
    lemma_integral_axes_facts(orders);
    lemma_region_membership(integral, m1);
    lemma_region_membership(integral, m2);
    let axes = region_axes(integral, m1);
    // a set bit: m1 differs from 0 in one of its r lowest bits
    lemma_pow2_pos(r);
    lemma_masks_differ_in_a_bit(m1, 0, r);
    let b = choose|b: int| 0 <= b < r && #[trigger] mask_bit(m1, b) != mask_bit(0, b);
    assert(!mask_bit(0, b)) by {
        lemma_pow2_pos(b as nat);
    }
    assert(axes.contains(integral[b]));
    assert forall|k: int| 0 <= k < axes.len() implies orders[#[trigger] axes[k] as int] > 0 && axes[k]
        < orders.len() by {
        assert(integral.contains(axes[k]));
        let j = choose|j: int| 0 <= j < integral.len() && integral[j] == axes[k];
        assert(orders[integral[j] as int] >= 1);
    }
    if m1 != m2 {
        lemma_masks_differ_in_a_bit(m1, m2, r);
        let c = choose|c: int| 0 <= c < r && #[trigger] mask_bit(m1, c) != mask_bit(m2, c);
        assert(axes.contains(integral[c]) != region_axes(integral, m2).contains(integral[c]));
    }
}

/// The position of a region's tail for a point: one step left of the stencil start along the
/// region's axes, at the stencil start along all other axes.
pub open spec fn tail_index(starts: Seq<usize>, in_region: Seq<bool>) -> Seq<usize> {
    Seq::new(starts.len(), |d: int| (if in_region[d] { starts[d] - 1 } else { starts[d] as int }) as usize)
}

/// Σ of the strides of the axes of a region.
pub open spec fn region_stride_sum(in_region: Seq<bool>, strides: Seq<usize>) -> int
    decreases in_region.len(),
{
    if in_region.len() == 0 {
        0
    } else {
        region_stride_sum(in_region.drop_last(), strides.take(in_region.len() - 1)) + (if in_region.last() {
            strides[in_region.len() - 1] as int
        } else {
            0
        })
    }
}

/// Law of the tail index: one before the stencil start along the region's axes, the stencil
/// start along all others (when no axis of the region starts at the first coefficient).
pub proof fn lemma_tail_index(starts: Seq<usize>, in_region: Seq<bool>)
    requires
        in_region.len() == starts.len(),
        forall|d: int| 0 <= d < starts.len() ==> !(in_region[d] && starts[d] == 0),
    ensures
        tail_index(starts, in_region).len() == starts.len(),
        forall|d: int|
            0 <= d < starts.len() ==> #[trigger] tail_index(starts, in_region)[d] + (if in_region[d] {
                1int
            } else {
                0int
            }) == starts[d],
{
}

/// Law of the tail position: when the stencil does not start at the first coefficient along
/// any axis of the region, the tail lies exactly one stride before the stencil start along each
/// of the region's axes: its position plus the strides of the region's axes is the position of
/// the stencil start.
pub proof fn lemma_tail_one_step_left(starts: Seq<usize>, in_region: Seq<bool>, strides: Seq<usize>)
    requires
        in_region.len() == starts.len(),
        strides.len() >= starts.len(),
        forall|d: int| 0 <= d < starts.len() ==> !(in_region[d] && starts[d] == 0),
    ensures
        flat_position(tail_index(starts, in_region), strides) + region_stride_sum(in_region, strides)
            == flat_position(starts, strides),
    decreases starts.len(),
{
    let n = starts.len();
    if n > 0 {
        let t = tail_index(starts, in_region);
        let sp = strides.take(n - 1);
        lemma_tail_one_step_left(starts.drop_last(), in_region.drop_last(), sp);
        assert(t.drop_last() =~= tail_index(starts.drop_last(), in_region.drop_last()));
        assert(strides.take(n - 1).take(n - 1) =~= sp);
        let st = strides[n - 1] as int;
        let s_last = starts[n - 1] as int;
        if in_region[n - 1] {
            assert(t[n - 1] == s_last - 1);
            assert((s_last - 1) * st + st == s_last * st) by (nonlinear_arith);
        } else {
            assert(t[n - 1] == s_last);
        }
    }
}

/// Where the tail of a region sits in the flat C-order vector for a point whose stencils start
/// at `starts` (one per axis): `None` when the stencil starts at the first coefficient along one
/// of the region's axes (no coefficient lies left of it, and the region contributes nothing);
/// otherwise the position one step left of the stencil start along the region's axes.
pub fn region_tail_offset(
    starts: &Vec<usize>,
    in_region: &Vec<bool>,
    strides: &Vec<usize>,
    lens: &Vec<usize>,
) -> (r: Option<usize>)
    requires
        starts@.len() == lens@.len(),
        in_region@.len() == lens@.len(),
        strides@.len() == lens@.len(),
        forall|d: int| 0 <= d < lens@.len() ==> strides@[d] == c_stride(lens@, d),
        forall|d: int| 0 <= d < lens@.len() ==> starts@[d] < lens@[d],
        product(lens@) <= usize::MAX,
    ensures
        r is None <==> exists|d: int| 0 <= d < lens@.len() && in_region@[d] && starts@[d] == 0,
        r matches Some(offset) ==> offset == flat_position(tail_index(starts@, in_region@), strides@)
            && offset < product(lens@),
        r is Some ==> forall|d: int|
            0 <= d < starts@.len() ==> #[trigger] tail_index(starts@, in_region@)[d] + (if in_region@[d] {
                1int
            } else {
                0int
            }) == starts@[d],
        r matches Some(offset) ==> offset + region_stride_sum(in_region@, strides@) == flat_position(
            starts@,
            strides@,
        ),
{
    let n: usize = starts.len();
    let mut d: usize = 0;
    while d < n
        invariant
            n == starts@.len(),
            n == in_region@.len(),
            n == lens@.len(),
            d <= n,
            forall|e: int| 0 <= e < d ==> !(in_region@[e] && starts@[e] == 0),
        decreases n - d,
    {
        if in_region[d] && starts[d] == 0 {
            assert(in_region@[d as int] && starts@[d as int] == 0);
            return None;
        }
        d += 1;
    }
    let ghost idx = tail_index(starts@, in_region@);
    proof {
        assert(strides@ =~= c_strides(lens@));
        lemma_c_order_in_bounds(lens@, idx);
    }
    let mut sum: usize = 0;
    let mut d: usize = 0;
    while d < n
        invariant
            n == starts@.len(),
            n == in_region@.len(),
            n == idx.len(),
            strides@.len() == n,
            idx == tail_index(starts@, in_region@),
            forall|e: int| 0 <= e < n ==> !(in_region@[e] && starts@[e] == 0),
            d <= n,
            sum == flat_position(idx.take(d as int), strides@.take(d as int)),
            flat_position(idx, strides@) < product(lens@),
            product(lens@) <= usize::MAX,
        decreases n - d,
    {
        let position: usize = if in_region[d] { starts[d] - 1 } else { starts[d] };
        proof {
            let it = idx.take(d + 1);
            assert(it.drop_last() =~= idx.take(d as int));
            assert(strides@.take(d + 1).take(d as int) =~= strides@.take(d as int));
            assert(it.last() == idx[d as int]);
            assert(idx[d as int] == position);
            assert(flat_position(it, strides@.take(d + 1)) == sum + position * strides@[d as int]);
            crate::layout::lemma_flat_position_prefix(idx, strides@, d + 1);
        }
        sum = sum + position * strides[d];
        d += 1;
    }
    assert(idx.take(n as int) =~= idx);
    assert(strides@.take(n as int) =~= strides@);
    proof {
        lemma_tail_one_step_left(starts@, in_region@, strides@);
        lemma_tail_index(starts@, in_region@);
    }
    Some(sum)
}

/// Σ of the moments of the regions of masks lo … hi − 1.
pub open spec fn moment_sum(orders: Seq<usize>, integral: Seq<usize>, lo: int, hi: int) -> int
    decreases hi - lo,
{
    if hi <= lo {
        0
    } else {
        moment_sum(orders, integral, lo, hi - 1) + moments_of(
            orders,
            region_axes(integral, (hi - 1) as usize),
        )
    }
}

/// Π (1 + m_d) over a list of axes.
spec fn plus_one_product(orders: Seq<usize>, axes: Seq<usize>) -> int
    decreases axes.len(),
{
    if axes.len() == 0 {
        1
    } else {
        plus_one_product(orders, axes.drop_last()) * (1 + orders[axes.last() as int])
    }
}

/// Bit j of 2^k + m, for m < 2^k: bit j of m below k, and set at k.
proof fn lemma_high_mask_bits(k: nat, m: int, j: nat)
    requires
        0 <= m < pow2(k),
        j <= k,
        pow2(k) + m <= usize::MAX,
    ensures
        j < k ==> mask_bit((pow2(k) + m) as usize, j as int) == mask_bit(m as usize, j as int),
        j == k ==> mask_bit((pow2(k) + m) as usize, j as int),
{
    let d = pow2(j);
    lemma_pow2_pos(j);
    lemma_pow2_adds((k - j) as nat, j);
    assert(((k - j) as nat + j) as nat == k);
    let a = pow2((k - j) as nat) as int;
    lemma_hoist_over_denominator(m, a, d);
    assert((m + a * d) / (d as int) == m / (d as int) + a);
    if j < k {
        lemma_pow2_unfold((k - j) as nat);
        let h = pow2((k - j - 1) as nat) as int;
        lemma_mod_multiples_vanish(h, m / (d as int), 2);
        assert(2 * h + m / (d as int) == m / (d as int) + a);
    } else {
        lemma_basic_div(m, d as int);
        vstd::arithmetic::power2::lemma2_to64();
        assert(a == 1);
    }
}

/// The region of a mask depends only on the bits below the number of integral axes.
proof fn lemma_region_axes_same_bits(integral: Seq<usize>, m1: usize, m2: usize)
    requires
        forall|j: int| 0 <= j < integral.len() ==> mask_bit(m1, j) == mask_bit(m2, j),
    ensures
        region_axes(integral, m1) == region_axes(integral, m2),
    decreases integral.len(),
{
    if integral.len() > 0 {
        lemma_region_axes_same_bits(integral.drop_last(), m1, m2);
        assert(mask_bit(m1, integral.len() - 1) == mask_bit(m2, integral.len() - 1));
    }
}

/// Splitting a sum of moments at mid.
proof fn lemma_moment_sum_split(orders: Seq<usize>, integral: Seq<usize>, lo: int, mid: int, hi: int)
    requires
        lo <= mid <= hi,
    ensures
        moment_sum(orders, integral, lo, hi) == moment_sum(orders, integral, lo, mid) + moment_sum(
            orders,
            integral,
            mid,
            hi,
        ),
    decreases hi - mid,
{
    if hi > mid {
        lemma_moment_sum_split(orders, integral, lo, mid, hi - 1);
    }
}

/// The regions of masks below 2^k over the first k + 1 integral axes are those over the first k.
proof fn lemma_low_half(orders: Seq<usize>, integral: Seq<usize>, k: int, hi: int)
    requires
        0 <= k < integral.len(),
        0 <= hi <= pow2(k as nat),
        pow2(k as nat) <= usize::MAX,
    ensures
        moment_sum(orders, integral.take(k + 1), 0, hi) == moment_sum(orders, integral.take(k), 0, hi),
    decreases hi,
{
    if hi > 0 {
        lemma_low_half(orders, integral, k, hi - 1);
        let m = (hi - 1) as usize;
        let t = integral.take(k + 1);
        assert(t.drop_last() =~= integral.take(k));
        lemma_pow2_pos(k as nat);
        lemma_basic_div(m as int, pow2(k as nat) as int);
        assert(!mask_bit(m, k));
    }
}

/// The regions of masks 2^k + m (m < 2^k) over the first k + 1 integral axes add the k-th
/// integral axis to the region of m over the first k.
proof fn lemma_high_half(orders: Seq<usize>, integral: Seq<usize>, k: int, hi: int)
    requires
        0 <= k < integral.len(),
        0 <= hi <= pow2(k as nat),
        2 * pow2(k as nat) <= usize::MAX,
    ensures
        moment_sum(orders, integral.take(k + 1), pow2(k as nat) as int, pow2(k as nat) + hi)
            == moment_sum(orders, integral.take(k), 0, hi) * orders[integral[k] as int],
    decreases hi,
{
    let p = pow2(k as nat) as int;
    let o = orders[integral[k] as int] as int;
    if hi > 0 {
        lemma_high_half(orders, integral, k, hi - 1);
        let m = hi - 1;
        let t = integral.take(k + 1);
        let tk = integral.take(k);
        assert(t.drop_last() =~= tk);
        lemma_high_mask_bits(k as nat, m, k as nat);
        assert forall|j: int| 0 <= j < tk.len() implies #[trigger] mask_bit((p + m) as usize, j) == mask_bit(
            m as usize,
            j,
        ) by {
            lemma_high_mask_bits(k as nat, m, j as nat);
        }
        lemma_region_axes_same_bits(tk, (p + m) as usize, m as usize);
        let ra = region_axes(t, (p + m) as usize);
        assert(ra == region_axes(tk, m as usize).push(integral[k]));
        assert(ra.drop_last() =~= region_axes(tk, m as usize));
        let a = moment_sum(orders, tk, 0, hi - 1);
        let b = moments_of(orders, region_axes(tk, m as usize));
        assert((a + b) * o == a * o + b * o) by (nonlinear_arith);
    }
}

/// The moments of all regions over the first k integral axes, the empty one included, sum to
/// Π (1 + m_d) over those axes.
proof fn lemma_moment_sum_prefix(orders: Seq<usize>, integral: Seq<usize>, k: int)
    requires
        0 <= k <= integral.len(),
        pow2(k as nat) <= usize::MAX,
    ensures
        moment_sum(orders, integral.take(k), 0, pow2(k as nat) as int) == plus_one_product(
            orders,
            integral.take(k),
        ),
    decreases k,
{
    if k == 0 {
        vstd::arithmetic::power2::lemma2_to64();
        assert(integral.take(0).len() == 0);
        assert(region_axes(integral.take(0), 0).len() == 0);
        assert(pow2(0) == 1);
        assert(moments_of(orders, region_axes(integral.take(0), 0)) == 1);
        assert(moment_sum(orders, integral.take(0), 0, 0) == 0);
        assert(moment_sum(orders, integral.take(0), 0, 1) == 1);
        assert(plus_one_product(orders, integral.take(0)) == 1);
    } else {
        let q = (k - 1) as nat;
        lemma_pow2_unfold(k as nat);
        lemma_pow2_pos(q);
        let p = pow2(q) as int;
        assert(pow2(k as nat) == 2 * p);
        lemma_moment_sum_prefix(orders, integral, k - 1);
        let t = integral.take(k);
        let tp = integral.take(k - 1);
        assert(t =~= integral.take((k - 1) + 1));
        lemma_moment_sum_split(orders, t, 0, p, 2 * p);
        lemma_low_half(orders, integral, k - 1, p);
        lemma_high_half(orders, integral, k - 1, p);
        assert(moment_sum(orders, t, 0, p) == moment_sum(orders, tp, 0, p));
        assert(moment_sum(orders, t, p, 2 * p) == moment_sum(orders, tp, 0, p) * orders[integral[k - 1] as int]);
        assert(t.drop_last() =~= tp);
        assert(t.last() == integral[k - 1]);
        let s = plus_one_product(orders, tp);
        let o = orders[integral[k - 1] as int] as int;
        assert(plus_one_product(orders, t) == s * (1 + o));
        assert(s + s * o == s * (1 + o)) by (nonlinear_arith);
        assert(moment_sum(orders, t, 0, 2 * p) == s * (1 + o));
    }
}

/// Π (1 + m_d) over the integral axes is the factor product over all axes.
proof fn lemma_plus_one_product_of_integral_axes(orders: Seq<usize>)
    requires
        orders.len() <= usize::MAX,
    ensures
        plus_one_product(orders, integral_axes_of(orders)) == factor_product(orders),
    decreases orders.len(),
{
    if orders.len() > 0 {
        let prev = orders.drop_last();
        lemma_plus_one_product_of_integral_axes(prev);
        lemma_integral_axes_facts(prev);
        let ip = integral_axes_of(prev);
        lemma_plus_one_same_orders(orders, prev, ip);
        let a = factor_product(prev);
        let z = orders.last() as int;
        if orders.last() > 0 {
            assert(integral_axes_of(orders).drop_last() =~= ip);
        } else {
            assert(a * (1 + z) == a) by (nonlinear_arith)
                requires
                    z == 0,
            ;
        }
    }
}

/// Π (1 + m_d) over a set of axes depends only on the orders of those axes.
proof fn lemma_plus_one_same_orders(o1: Seq<usize>, o2: Seq<usize>, axes: Seq<usize>)
    requires
        forall|j: int|
            0 <= j < axes.len() ==> axes[j] < o1.len() && axes[j] < o2.len() && o1[axes[j] as int]
                == o2[axes[j] as int],
    ensures
        plus_one_product(o1, axes) == plus_one_product(o2, axes),
    decreases axes.len(),
{
    if axes.len() > 0 {
        lemma_plus_one_same_orders(o1, o2, axes.drop_last());
    }
}

/// Law of the memory of the tails: the regions of masks 1 … 2^r − 1 (the regions that
/// `plan_regions` builds) have, together, (Π_d (1 + m_d) − 1) moments, the tail values of one
/// coefficient that `tail_bytes` counts.
pub proof fn lemma_region_moments_sum_to_tail_values(orders: Seq<usize>)
    requires
        orders.len() <= usize::MAX,
        pow2(integral_axes_of(orders).len()) <= usize::MAX,
    ensures
        moment_sum(
            orders,
            integral_axes_of(orders),
            1,
            pow2(integral_axes_of(orders).len()) as int,
        ) == factor_product(orders) - 1,
{
    let integral = integral_axes_of(orders);
    let r = integral.len();
    lemma_pow2_pos(r);
    lemma_moment_sum_prefix(orders, integral, r as int);
    assert(integral.take(r as int) =~= integral);
    lemma_moment_sum_split(orders, integral, 0, 1, pow2(r) as int);
    assert(region_axes(integral, 0).len() == 0) by {
        lemma_region_axes_of_zero(integral);
    }
    assert(moment_sum(orders, integral, 0, 0) == 0);
    assert(moment_sum(orders, integral, 0, 1) == 1);
    lemma_plus_one_product_of_integral_axes(orders);
}

/// The region of mask 0 is empty.
proof fn lemma_region_axes_of_zero(integral: Seq<usize>)
    ensures
        region_axes(integral, 0).len() == 0,
    decreases integral.len(),
{
    if integral.len() > 0 {
        lemma_region_axes_of_zero(integral.drop_last());
        lemma_pow2_pos((integral.len() - 1) as nat);
        assert(0nat / pow2((integral.len() - 1) as nat) == 0);
    }
}

} // verus!
