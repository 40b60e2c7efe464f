//! The flat layout of an N-D coefficient array in C order (the last axis contiguous): the
//! stride of each axis, and the position of a multi-index.
use vstd::prelude::*;
use vstd::arithmetic::div_mod::{lemma_fundamental_div_mod_converse_div, lemma_fundamental_div_mod_converse_mod, lemma_fundamental_div_mod};

verus! {

/// The product of a sequence of lengths (1 for none).
pub open spec fn product(s: Seq<usize>) -> int
    decreases s.len(),
{
    if s.len() == 0 {
        1
    } else {
        product(s.drop_last()) * s.last()
    }
}

/// The stride of axis d in C order: the product of the lengths of all later axes.
pub open spec fn c_stride(lens: Seq<usize>, d: int) -> int {
    product(lens.subrange(d + 1, lens.len() as int))
}

/// The position of a multi-index in a flat vector with the given strides: Σ_d idx[d]·strides[d].
pub open spec fn flat_position(idx: Seq<usize>, strides: Seq<usize>) -> int
    decreases idx.len(),
{
    if idx.len() == 0 {
        0
    } else {
        flat_position(idx.drop_last(), strides.take(idx.len() - 1)) + idx.last() * strides[idx.len()
            - 1]
    }
}

/// Law of positions: the origin is at position 0, and one step along axis d moves the position
/// by the stride of axis d.
pub proof fn lemma_flat_position_steps(idx: Seq<usize>, strides: Seq<usize>, d: int)
    requires
        strides.len() >= idx.len(),
        0 <= d < idx.len(),
        idx[d] < usize::MAX,
    ensures
        flat_position(Seq::new(idx.len(), |e: int| 0usize), strides) == 0,
        flat_position(idx.update(d, (idx[d] + 1) as usize), strides) == flat_position(idx, strides)
            + strides[d],
    decreases idx.len(),
{
    let n = idx.len();
    let z = Seq::new(n, |e: int| 0usize);
    lemma_flat_position_zero(z, strides);
    let u = idx.update(d, (idx[d] + 1) as usize);
    let k = n - 1;
    if d == k {
        assert(u.drop_last() =~= idx.drop_last());
        let a = idx[d] as int;
        let st = strides[d] as int;
        assert((a + 1) * st == a * st + st) by (nonlinear_arith);
    } else {
        lemma_flat_position_steps(idx.drop_last(), strides.take(k), d);
        assert(u.drop_last() =~= idx.drop_last().update(d, (idx[d] + 1) as usize));
        assert(u.last() == idx.last());
    }
}

/// All-zero indices are at position 0.
proof fn lemma_flat_position_zero(z: Seq<usize>, strides: Seq<usize>)
    requires
        forall|e: int| 0 <= e < z.len() ==> z[e] == 0,
    ensures
        flat_position(z, strides) == 0,
    decreases z.len(),
{
    if z.len() > 0 {
        lemma_flat_position_zero(z.drop_last(), strides.take(z.len() - 1));
    }
}

/// A product splits off its first factor as well as its last.
pub proof fn lemma_product_first(s: Seq<usize>)
    requires
        s.len() > 0,
    ensures
        product(s) == s[0] * product(s.drop_first()),
    decreases s.len(),
{
    if s.len() == 1 {
        assert(s.drop_last().len() == 0);
        assert(s.drop_first().len() == 0);
        assert(product(s.drop_last()) == 1);
        assert(product(s.drop_first()) == 1);
        assert(s.last() == s[0]);
        assert(product(s) == s[0]);
    } else {
        lemma_product_first(s.drop_last());
        assert(s.drop_last().drop_first() =~= s.drop_first().drop_last());
        assert(s.drop_last()[0] == s[0]);
        assert(s.drop_first().last() == s.last());
        let a = s[0] as int;
        let p = product(s.drop_first().drop_last());
        let z = s.last() as int;
        assert(product(s) == (a * p) * z);
        assert(product(s.drop_first()) == p * z);
        assert(product(s.drop_last()) == a * p);
        assert((a * p) * z == a * (p * z)) by (nonlinear_arith);
    }
}

/// A product of lengths is never negative.
proof fn lemma_product_nonneg(s: Seq<usize>)
    ensures
        product(s) >= 0,
    decreases s.len(),
{
    if s.len() > 0 {
        lemma_product_nonneg(s.drop_last());
        let p = product(s.drop_last());
        let z = s.last() as int;
        assert(p * z >= 0) by (nonlinear_arith)
            requires
                p >= 0,
                z >= 0,
        ;
    }
}

/// The strides of an array with axis lengths `lens` in C order: 1 along the last axis; before
/// it, the product of the lengths of all later axes.
pub fn c_order_strides(lens: &Vec<usize>) -> (strides: Vec<usize>)
    requires
        lens@.len() >= 1,
        forall|d: int| 0 <= d < lens@.len() ==> c_stride(lens@, d) <= usize::MAX,
    ensures
        strides@.len() == lens@.len(),
        forall|d: int| 0 <= d < lens@.len() ==> strides@[d] == c_stride(lens@, d),
        strides@[lens@.len() - 1] == 1,
        forall|d: int|
            0 <= d < lens@.len() - 1 ==> #[trigger] strides@[d] == strides@[d + 1] * lens@[d + 1],
{
    let n: usize = lens.len();
    let mut strides: Vec<usize> = Vec::new();
    let mut d: usize = 0;
    while d < n
        invariant
            n == lens@.len(),
            d <= n,
            strides@.len() == d,
            forall|e: int| 0 <= e < d ==> strides@[e] == 1,
        decreases n - d,
    {
        strides.push(1);
        d += 1;
    }
    assert(lens@.subrange(n as int, n as int).len() == 0);
    let mut d: usize = n - 1;
    while d > 0
        invariant
            n == lens@.len(),
            1 <= n,
            d < n,
            strides@.len() == n,
            forall|e: int| 0 <= e < lens@.len() ==> c_stride(lens@, e) <= usize::MAX,
            forall|e: int| d <= e < n ==> strides@[e] == c_stride(lens@, e),
        decreases d,
    {
        proof {
            let s = lens@.subrange(d as int, n as int);
            lemma_product_first(s);
            assert(s.drop_first() =~= lens@.subrange(d + 1, n as int));
            assert(s[0] == lens@[d as int]);
            assert(s =~= lens@.subrange((d - 1) + 1, n as int));
            assert(c_stride(lens@, d - 1) <= usize::MAX);
            assert(product(s) == c_stride(lens@, d - 1));
            assert(strides@[d as int] * lens@[d as int] == lens@[d as int] * strides@[d as int]) by (nonlinear_arith);
        }
        let next: usize = strides[d] * lens[d];
        strides.set(d - 1, next);
        d -= 1;
    }
    proof {
        lemma_c_strides_recurrence(lens@);
    }
    strides
}

/// Law of the C-order strides: the last axis is contiguous (stride 1), and each stride is the
/// next axis's stride times the next axis's length.
pub proof fn lemma_c_strides_recurrence(lens: Seq<usize>)
    requires
        lens.len() >= 1,
    ensures
        c_stride(lens, lens.len() - 1) == 1,
        forall|d: int|
            0 <= d < lens.len() - 1 ==> #[trigger] c_stride(lens, d) == c_stride(lens, d + 1) * lens[d
                + 1],
{
    let n = lens.len() as int;
    assert(lens.subrange(n, n).len() == 0);
    assert forall|d: int| 0 <= d < n - 1 implies #[trigger] c_stride(lens, d) == c_stride(lens, d + 1)
        * lens[d + 1] by {
        let s = lens.subrange(d + 1, n);
        lemma_product_first(s);
        assert(s.drop_first() =~= lens.subrange(d + 2, n));
        assert(s[0] == lens[d + 1]);
        let a = lens[d + 1] as int;
        let b = c_stride(lens, d + 1);
        assert(a * b == b * a) by (nonlinear_arith);
    }
}

/// The strides of C order, as a sequence.
pub open spec fn c_strides(lens: Seq<usize>) -> Seq<usize> {
    Seq::new(lens.len(), |d: int| c_stride(lens, d) as usize)
}

/// Law of the C-order layout: a multi-index within the axis lengths lies within the flat
/// vector, whose length is the product of the axis lengths.
pub proof fn lemma_c_order_in_bounds(lens: Seq<usize>, idx: Seq<usize>)
    requires
        idx.len() == lens.len(),
        forall|d: int| 0 <= d < lens.len() ==> idx[d] < lens[d],
        product(lens) <= usize::MAX,
    ensures
        0 <= flat_position(idx, c_strides(lens)) < product(lens),
    decreases lens.len(),
{
    let n = lens.len();
    if n == 0 {
        return;
    }
    let lp = lens.drop_last();
    let ip = idx.drop_last();
    let z = lens.last() as int;
    let i = idx.last() as int;
    lemma_product_nonneg(lp);
    let p = product(lp);
    assert(product(lens) == p * z);
    assert(p <= usize::MAX) by {
        if p > usize::MAX {
            assert(p * z >= p) by (nonlinear_arith)
                requires
                    z >= 1,
                    p >= 0,
            ;
        }
    }
    lemma_c_order_in_bounds(lp, ip);
    let f = flat_position(ip, c_strides(lp));
    // the strides of the leading axes are those of `lp`, times the last length
    let cs = c_strides(lens);
    let cp = c_strides(lp);
    assert forall|d: int| 0 <= d < n - 1 implies cs[d] == cp[d] * z by {
        let s = lens.subrange(d + 1, n as int);
        assert(s.drop_last() =~= lp.subrange(d + 1, n - 1));
        assert(c_stride(lens, d) == c_stride(lp, d) * z);
        lemma_product_nonneg(lp.subrange(d + 1, n - 1));
        assert(c_stride(lp, d) <= p) by {
            lemma_suffix_product_le(lp, d + 1);
        }
        assert(c_stride(lp, d) * z <= p * z) by (nonlinear_arith)
            requires
                c_stride(lp, d) <= p,
                z >= 0,
        ;
        assert(c_stride(lens, d) <= usize::MAX);
    }
    assert(cs[n - 1] == 1) by {
        assert(lens.subrange(n as int, n as int).len() == 0);
    }
    lemma_scaled_position(ip, cp, cs.take(n - 1), z);
    assert(cs.take(n - 1) =~= cs.take(idx.len() - 1));
    assert(flat_position(idx, cs) == f * z + i);
    assert(f * z + i < p * z) by (nonlinear_arith)
        requires
            0 <= f < p,
            0 <= i < z,
    ;
    assert(f * z + i >= 0) by (nonlinear_arith)
        requires
            0 <= f,
            0 <= i,
            z >= 0,
    ;
}

/// A product of lengths that are all at least 1 is at least 1.
proof fn lemma_product_positive(s: Seq<usize>)
    requires
        forall|d: int| 0 <= d < s.len() ==> s[d] >= 1,
    ensures
        product(s) >= 1,
    decreases s.len(),
{
    if s.len() > 0 {
        lemma_product_positive(s.drop_last());
        let p = product(s.drop_last());
        let z = s.last() as int;
        assert(p * z >= 1) by (nonlinear_arith)
            requires
                p >= 1,
                z >= 1,
        ;
    }
}

/// A product of a suffix of lengths, all of them at least 1, is at most the whole product.
proof fn lemma_suffix_product_le(s: Seq<usize>, from: int)
    requires
        0 <= from <= s.len(),
        forall|d: int| 0 <= d < s.len() ==> s[d] >= 1,
    ensures
        product(s.subrange(from, s.len() as int)) <= product(s),
    decreases s.len(),
{
    if from == s.len() {
        lemma_product_positive(s);
        assert(s.subrange(from, s.len() as int).len() == 0);
    } else {
        let t = s.subrange(from, s.len() as int);
        lemma_suffix_product_le(s.drop_last(), from);
        assert(t.drop_last() =~= s.drop_last().subrange(from, s.len() - 1));
        let a = product(t.drop_last());
        let b = product(s.drop_last());
        let z = s.last() as int;
        lemma_product_nonneg(t.drop_last());
        assert(t.last() == s.last());
        assert(a * z <= b * z) by (nonlinear_arith)
            requires
                a <= b,
                z >= 0,
        ;
    }
}

/// Scaling every stride scales the position.
proof fn lemma_scaled_position(idx: Seq<usize>, strides: Seq<usize>, scaled: Seq<usize>, z: int)
    requires
        strides.len() >= idx.len(),
        scaled.len() >= idx.len(),
        forall|d: int| 0 <= d < idx.len() ==> scaled[d] == strides[d] * z,
    ensures
        flat_position(idx, scaled) == flat_position(idx, strides) * z,
    decreases idx.len(),
{
    if idx.len() > 0 {
        let k = idx.len() - 1;
        lemma_scaled_position(idx.drop_last(), strides.take(k), scaled.take(k), z);
        let f = flat_position(idx.drop_last(), strides.take(k));
        let i = idx.last() as int;
        let s = strides[k] as int;
        assert(f * z + i * (s * z) == (f + i * s) * z) by (nonlinear_arith);
    }
}

/// A position over a prefix of the axes is at most the position over all of them (strides are
/// never negative).
pub proof fn lemma_flat_position_prefix(idx: Seq<usize>, strides: Seq<usize>, k: int)
    requires
        0 <= k <= idx.len(),
        strides.len() >= idx.len(),
    ensures
        0 <= flat_position(idx.take(k), strides.take(k)) <= flat_position(idx, strides),
    decreases idx.len(),
{
    if k == idx.len() {
        assert(idx.take(k) =~= idx);
        if idx.len() > 0 {
            lemma_flat_position_prefix(idx.drop_last(), strides.take(idx.len() - 1), 0);
            assert(idx.take(0).len() == 0);
            assert(idx.drop_last().take(0).len() == 0);
            let t = strides.take(idx.len() - 1);
            lemma_flat_position_prefix(idx.drop_last(), t, idx.len() - 1);
            assert(idx.drop_last().take(idx.len() - 1) =~= idx.drop_last());
            assert(t.take(idx.len() - 1) =~= t);
            let i = idx.last() as int;
            let st = strides[idx.len() - 1] as int;
            assert(i * st >= 0) by (nonlinear_arith)
                requires
                    i >= 0,
                    st >= 0,
            ;
            assert(strides.take(k).take(idx.len() - 1) =~= strides.take(idx.len() - 1));
        }
    } else {
        let t = strides.take(idx.len() - 1);
        lemma_flat_position_prefix(idx.drop_last(), t, k);
        assert(idx.drop_last().take(k) =~= idx.take(k));
        assert(t.take(k) =~= strides.take(k));
        let i = idx.last() as int;
        let st = strides[idx.len() - 1] as int;
        assert(i * st >= 0) by (nonlinear_arith)
            requires
                i >= 0,
                st >= 0,
        ;
    }
}

/// The position of a multi-index `idx` in the flat C-order vector of an array with axis
/// lengths `lens`, given its strides: Σ_d idx[d]·strides[d], always within the vector.
pub fn flat_offset(idx: &Vec<usize>, strides: &Vec<usize>, lens: &Vec<usize>) -> (r: usize)
    requires
        idx@.len() == lens@.len(),
        strides@.len() == lens@.len(),
        forall|d: int| 0 <= d < lens@.len() ==> strides@[d] == c_stride(lens@, d),
        forall|d: int| 0 <= d < lens@.len() ==> idx@[d] < lens@[d],
        product(lens@) <= usize::MAX,
    ensures
        r == flat_position(idx@, strides@),
        r < product(lens@),
{
    let ghost lens = lens@;
    proof {
        assert(strides@ =~= c_strides(lens));
        lemma_c_order_in_bounds(lens, idx@);
    }
    let n: usize = idx.len();
    let mut sum: usize = 0;
    let mut d: usize = 0;
    while d < n
        invariant
            n == idx@.len(),
            strides@.len() == n,
            d <= n,
            sum == flat_position(idx@.take(d as int), strides@.take(d as int)),
            flat_position(idx@, strides@) < product(lens),
            product(lens) <= usize::MAX,
        decreases n - d,
    {
        proof {
            let it = idx@.take(d + 1);
            assert(it.drop_last() =~= idx@.take(d as int));
            assert(strides@.take(d + 1).take(d as int) =~= strides@.take(d as int));
            assert(it.last() == idx@[d as int]);
            assert(flat_position(it, strides@.take(d + 1)) == sum + idx@[d as int] * strides@[d as int]);
            lemma_flat_position_prefix(idx@, strides@, d + 1);
        }
        sum = sum + idx[d] * strides[d];
        d += 1;
    }
    assert(idx@.take(n as int) =~= idx@);
    assert(strides@.take(n as int) =~= strides@);
    sum
}

/// Entry p of a table of rows of k values, padded with `zero` columns to `width` values per row.
pub open spec fn padded_entry<T>(rows: Seq<T>, k: int, width: int, zero: T, p: int) -> T {
    if p % width < k {
        rows[(p / width) * k + p % width]
    } else {
        zero
    }
}

/// The width of a padded row of k values: k rounded up to a multiple of four.
pub open spec fn padded_width(k: int) -> int {
    4 * ((k + 3) / 4)
}

/// Law of the padded width: rows of k values are padded to the least multiple of four that is
/// not below k.
pub proof fn lemma_padded_width(k: int)
    requires
        k >= 0,
    ensures
        padded_width(k) % 4 == 0,
        k <= padded_width(k) < k + 4,
{
    lemma_fundamental_div_mod(k + 3, 4);
}

/// Law of the padded entries: in row r of a padded table of width w ≥ k, column c < k holds
/// value c of row r, and the columns k … w − 1 hold the padding.
pub proof fn lemma_padded_entry<T>(rows: Seq<T>, k: int, w: int, zero: T, r: int, c: int)
    requires
        0 <= k <= w,
        w >= 1,
        r >= 0,
        0 <= c < w,
    ensures
        c < k ==> padded_entry(rows, k, w, zero, r * w + c) == rows[r * k + c],
        c >= k ==> padded_entry(rows, k, w, zero, r * w + c) == zero,
{
    lemma_fundamental_div_mod_converse_div(r * w + c, w, r, c);
    lemma_fundamental_div_mod_converse_mod(r * w + c, w, r, c);
}

/// A table of rows of `k` values each (`rows`, row after row; a shorter last row is ignored)
/// with every row padded by `zero` to a multiple of four values, so that each row fills whole
/// blocks of four.
pub fn pad_columns<T: Copy>(rows: &[T], k: usize, zero: T) -> (padded: Vec<T>)
    requires
        k >= 1,
        k + 3 <= usize::MAX,
        (rows@.len() as int / k as int) * padded_width(k as int) <= usize::MAX,
    ensures
        padded_width(k as int) % 4 == 0,
        k <= padded_width(k as int) < k + 4,
        padded@.len() == (rows@.len() as int / k as int) * padded_width(k as int),
        forall|p: int|
            0 <= p < padded@.len() ==> padded@[p] == padded_entry(
                rows@,
                k as int,
                padded_width(k as int),
                zero,
                p,
            ),
{
    let blocks: usize = (k + 3) / 4;
    let width: usize = 4 * blocks;
    let n_rows: usize = rows.len() / k;
    assert(width >= k && width >= 4) by {
        lemma_fundamental_div_mod(k + 3, 4);
    }
    let ghost w = width as int;
    proof {
        lemma_padded_width(k as int);
    }
    let mut out: Vec<T> = Vec::new();
    let mut r: usize = 0;
    while r < n_rows
        invariant
            width == padded_width(k as int),
            w == width,
            rows@.len() <= usize::MAX,
            width >= k,
            width >= 4,
            k >= 1,
            n_rows == rows@.len() as int / k as int,
            n_rows * width <= usize::MAX,
            r <= n_rows,
            out@.len() == r * width,
            forall|p: int|
                0 <= p < out@.len() ==> out@[p] == padded_entry(rows@, k as int, w, zero, p),
        decreases n_rows - r,
    {
        assert((r + 1) * k <= rows@.len()) by {
            lemma_fundamental_div_mod(rows@.len() as int, k as int);
            assert((r + 1) * k <= n_rows * k) by (nonlinear_arith)
                requires
                    r + 1 <= n_rows,
                    k >= 1,
            ;
        }
        assert((r + 1) * width <= n_rows * width) by (nonlinear_arith)
            requires
                r + 1 <= n_rows,
                width >= 1,
        ;
        let mut c: usize = 0;
        while c < width
            invariant
                width == padded_width(k as int),
                w == width,
                rows@.len() <= usize::MAX,
                width >= k,
                width >= 4,
                k >= 1,
                n_rows == rows@.len() as int / k as int,
                r < n_rows,
                (r + 1) * k <= rows@.len(),
                (r + 1) * width <= usize::MAX,
                c <= width,
                out@.len() == r * width + c,
                forall|p: int|
                    0 <= p < out@.len() ==> out@[p] == padded_entry(rows@, k as int, w, zero, p),
            decreases width - c,
        {
            proof {
                let p = r * width + c;
                lemma_fundamental_div_mod_converse_div(p, w, r as int, c as int);
                lemma_fundamental_div_mod_converse_mod(p, w, r as int, c as int);
                assert(r * k + k == (r + 1) * k) by (nonlinear_arith);
                assert(r * width + width == (r + 1) * width) by (nonlinear_arith);
                assert(r * k <= (r + 1) * k) by (nonlinear_arith)
                    requires
                        k >= 1,
                ;
            }
            let v = if c < k {
                rows[r * k + c]
            } else {
                zero
            };
            out.push(v);
            c += 1;
        }
        assert(r * width + width == (r + 1) * width) by (nonlinear_arith);
        r += 1;
    }
    out
}

} // verus!
