use crate::raster::{grid_at, lemma_grid_index, max_u8, CoverageMask};
use vstd::arithmetic::div_mod::{lemma_fundamental_div_mod, lemma_mod_bound};
use vstd::arithmetic::div_mod::lemma_fundamental_div_mod_converse;
use vstd::prelude::*;

verus! {

/// The largest of `s[lo]`, ..., `s[hi - 1]`; 0 (no coverage) where the range is empty.
pub open spec fn max_in(s: Seq<u8>, lo: int, hi: int) -> u8
    decreases hi - lo,
{
    if hi <= lo {
        0
    } else {
        let m = max_in(s, lo, hi - 1);
        if s[hi - 1] > m {
            s[hi - 1]
        } else {
            m
        }
    }
}

/// The `n` values of `s` at `base`, `base + stride`, `base + 2 * stride`, ...
pub open spec fn line(s: Seq<u8>, base: int, stride: int, n: int) -> Seq<u8> {
    Seq::new(n as nat, |k: int| s[base + k * stride])
}

/// First index of the radius-`r` window around `c`, clamped to the grid.
pub open spec fn win_lo(c: int, r: int) -> int {
    if c - r < 0 {
        0
    } else {
        c - r
    }
}

/// One past the last index of the radius-`r` window around `c`, clamped to `n`.
pub open spec fn win_hi(c: int, r: int, n: int) -> int {
    if c + r + 1 > n {
        n
    } else {
        c + r + 1
    }
}

/// `c2` lies on a grid line of length `n`, at most `r` away from `c`.
pub open spec fn near(c: int, c2: int, r: int, n: int) -> bool {
    0 <= c2 < n && c - r <= c2 <= c + r
}

/// The largest coverage in row `y` within `r` columns of column `x`.
pub open spec fn row_max(s: Seq<u8>, w: int, r: int, x: int, y: int) -> u8 {
    max_in(line(s, y * w, 1, w), win_lo(x, r), win_hi(x, r, w))
}

/// The largest coverage of the `w` by `h` grid `s` in the square of side
/// `2r + 1` centred on `(x, y)`, cells off the grid left out: the largest of
/// the row maxima over the rows of the square.
pub open spec fn dilated_at(s: Seq<u8>, w: int, h: int, r: int, x: int, y: int) -> u8 {
    max_in(Seq::new(h as nat, |y2: int| row_max(s, w, r, x, y2)), win_lo(y, r), win_hi(y, r, h))
}

/// `dst` is `src` dilated by radius `r` under the L-infinity metric.
pub open spec fn is_dilation(src: CoverageMask, dst: CoverageMask, r: int) -> bool {
    &&& dst.wf()
    &&& dst.width == src.width
    &&& dst.height == src.height
    &&& forall|x: int, y: int|
        0 <= x < src.width && 0 <= y < src.height ==> #[trigger] dst.at(x, y) == dilated_at(
            src.values@,
            src.width as int,
            src.height as int,
            r,
            x,
            y,
        )
}

proof fn lemma_max_in_upper(s: Seq<u8>, lo: int, hi: int, i: int)
    requires
        lo <= i < hi,
    ensures
        s[i] <= max_in(s, lo, hi),
    decreases hi - lo,
{
    if i < hi - 1 {
        lemma_max_in_upper(s, lo, hi - 1, i);
    }
}

proof fn lemma_max_in_witness(s: Seq<u8>, lo: int, hi: int) -> (i: int)
    requires
        lo < hi,
    ensures
        lo <= i < hi,
        max_in(s, lo, hi) == s[i],
    decreases hi - lo,
{
    if lo == hi - 1 {
        assert(max_in(s, lo, lo) == 0);
        hi - 1
    } else {
        let j = lemma_max_in_witness(s, lo, hi - 1);
        if s[hi - 1] > max_in(s, lo, hi - 1) {
            hi - 1
        } else {
            j
        }
    }
}

/// Every cell of the square of side `2r + 1` around `(x, y)`, off-grid cells
/// left out, is at most the dilated value; with `lemma_dilated_witness` this
/// makes `dilated_at` the maximum over that square.
pub proof fn lemma_dilated_upper(s: Seq<u8>, w: int, h: int, r: int, x: int, y: int, x2: int, y2: int)
    requires
        0 <= x < w,
        0 <= y < h,
        r >= 0,
        near(x, x2, r, w),
        near(y, y2, r, h),
    ensures
        grid_at(s, w, x2, y2) <= dilated_at(s, w, h, r, x, y),
{
    let row = line(s, y2 * w, 1, w);
    lemma_max_in_upper(row, win_lo(x, r), win_hi(x, r, w), x2);
    assert(row[x2] == s[y2 * w + x2]);
    let col = Seq::new(h as nat, |y3: int| row_max(s, w, r, x, y3));
    lemma_max_in_upper(col, win_lo(y, r), win_hi(y, r, h), y2);
}

/// The dilated value at `(x, y)` is that of some cell of the square of side
/// `2r + 1` around it.
pub proof fn lemma_dilated_witness(s: Seq<u8>, w: int, h: int, r: int, x: int, y: int) -> (c: (int, int))
    requires
        0 <= x < w,
        0 <= y < h,
        r >= 0,
    ensures
        near(x, c.0, r, w),
        near(y, c.1, r, h),
        dilated_at(s, w, h, r, x, y) == grid_at(s, w, c.0, c.1),
{
    let col = Seq::new(h as nat, |y3: int| row_max(s, w, r, x, y3));
    let y2 = lemma_max_in_witness(col, win_lo(y, r), win_hi(y, r, h));
    let row = line(s, y2 * w, 1, w);
    let x2 = lemma_max_in_witness(row, win_lo(x, r), win_hi(x, r, w));
    assert(row[x2] == s[y2 * w + x2]);
    (x2, y2)
}

/// The footprint of a dilation (the cells with coverage above zero) grows
/// with the radius: dilating one mask by `r2 > r1` covers at least every cell
/// that dilating it by `r1` covers.
pub proof fn lemma_dilation_footprint_grows(
    m: CoverageMask,
    small: CoverageMask,
    large: CoverageMask,
    r1: int,
    r2: int,
)
    requires
        m.wf(),
        0 <= r1 < r2,
        is_dilation(m, small, r1),
        is_dilation(m, large, r2),
    ensures
        forall|x: int, y: int|
            0 <= x < m.width && 0 <= y < m.height && small.at(x, y) > 0 ==> #[trigger] large.at(x, y) > 0,
{
    let s = m.values@;
    let w = m.width as int;
    let h = m.height as int;
    assert forall|x: int, y: int| 0 <= x < w && 0 <= y < h implies small.at(x, y) <= #[trigger] large.at(x, y) by {
        let c = lemma_dilated_witness(s, w, h, r1, x, y);
        lemma_dilated_upper(s, w, h, r2, x, y, c.0, c.1);
    }
}

/// Dilating by `r` and then dilating the result by `r` again is dilating
/// once by `2r`.
pub proof fn lemma_dilate_twice(m: CoverageMask, once: CoverageMask, twice: CoverageMask, r: int)
    requires
        m.wf(),
        r >= 0,
        is_dilation(m, once, r),
        is_dilation(once, twice, r),
    ensures
        is_dilation(m, twice, 2 * r),
{
    let s = m.values@;
    let d = once.values@;
    let w = m.width as int;
    let h = m.height as int;
    assert forall|x: int, y: int| 0 <= x < w && 0 <= y < h implies #[trigger] twice.at(x, y)
        == dilated_at(s, w, h, 2 * r, x, y) by {
        assert(twice.at(x, y) == dilated_at(d, w, h, r, x, y));
        let c1 = lemma_dilated_witness(d, w, h, r, x, y);
        assert(once.at(c1.0, c1.1) == dilated_at(s, w, h, r, c1.0, c1.1));
        let c2 = lemma_dilated_witness(s, w, h, r, c1.0, c1.1);
        lemma_dilated_upper(s, w, h, 2 * r, x, y, c2.0, c2.1);
        let c3 = lemma_dilated_witness(s, w, h, 2 * r, x, y);
        let mx = (x + c3.0) / 2;
        let my = (y + c3.1) / 2;
        lemma_dilated_upper(s, w, h, r, mx, my, c3.0, c3.1);
        assert(once.at(mx, my) == dilated_at(s, w, h, r, mx, my));
        lemma_dilated_upper(d, w, h, r, x, y, mx, my);
    }
}

/// Start of the block of size `k` that holds index `i`.
pub open spec fn block_start(i: int, k: int) -> int {
    i - i % k
}

/// One past the end of the block of size `k` that holds index `i`, clamped to `n`.
pub open spec fn block_end(i: int, k: int, n: int) -> int {
    if block_start(i, k) + k < n {
        block_start(i, k) + k
    } else {
        n
    }
}

/// The maximum of a range is the larger of the maxima of its two halves.
proof fn lemma_max_in_split(s: Seq<u8>, lo: int, m: int, hi: int)
    requires
        lo <= m <= hi,
    ensures
        max_in(s, lo, hi) == max_u8(max_in(s, lo, m), max_in(s, m, hi)),
    decreases hi - m,
{
    if hi > m {
        lemma_max_in_split(s, lo, m, hi - 1);
    } else {
        assert(max_in(s, m, hi) == 0);
    }
}

/// Where `i` lies in the block that starts at `q * k`.
proof fn lemma_block_of(i: int, k: int, q: int)
    requires
        k > 0,
        q * k <= i < q * k + k,
    ensures
        block_start(i, k) == q * k,
{
    lemma_fundamental_div_mod_converse(i, k, q, i - q * k);
}

/// The start of a block is a multiple of the block size, at most `k - 1` before `i`.
proof fn lemma_block_start(i: int, k: int) -> (q: int)
    requires
        k > 0,
        i >= 0,
    ensures
        block_start(i, k) == q * k,
        i - k < q * k <= i,
        0 <= i % k <= i,
{
    if i < k {
        lemma_fundamental_div_mod_converse(i, k, 0, i);
    }
    lemma_fundamental_div_mod(i, k);
    lemma_mod_bound(i, k);
    assert(k * (i / k) == (i / k) * k) by (nonlinear_arith);
    i / k
}

/// Dilates one line of `v` (the `n` values at `base`, `base + stride`, ...)
/// by `rad`: each value becomes the largest within `rad` places of it on the
/// line. Cuts the line into blocks of the window's size and combines a
/// suffix maximum of one block with a prefix maximum of the next, so the
/// cost per value does not depend on the radius.
fn max_filter_line(v: &Vec<u8>, base: usize, stride: usize, n: usize, rad: usize) -> (r: Vec<u8>)
    requires
        0 < n <= u32::MAX,
        base + (n - 1) * stride < v@.len(),
    ensures
        r@.len() == n,
        forall|k: int|
            0 <= k < n ==> #[trigger] r@[k] == max_in(
                line(v@, base as int, stride as int, n as int),
                win_lo(k, rad as int),
                win_hi(k, rad as int, n as int),
            ),
{
    let ghost l = line(v@, base as int, stride as int, n as int);
    let _len: usize = v.len();
    let q: u64 = if rad < n { rad as u64 } else { (n - 1) as u64 };
    let bk: u64 = 2 * q + 1;
    let ghost kk = bk as int;
    // Prefix maxima within each block.
    let mut pre: Vec<u8> = Vec::new();
    let mut i: usize = 0;
    while i < n
        invariant
            0 < n <= u32::MAX,
            base + (n - 1) * stride < v@.len(),
            v@.len() <= usize::MAX,
            l == line(v@, base as int, stride as int, n as int),
            kk == bk as int,
            bk > 0,
            i <= n,
            pre@.len() == i,
            forall|j: int| 0 <= j < i ==> #[trigger] pre@[j] == max_in(l, block_start(j, kk), j + 1),
        decreases n - i,
    {
        assert(i * stride <= (n - 1) * stride) by (nonlinear_arith)
            requires
                0 <= i <= n - 1,
                0 <= stride,
        ;
        let c: u8 = v[base + i * stride];
        assert(l[i as int] == c);
        let ghost qi = lemma_block_start(i as int, kk);
        proof { lemma_fundamental_div_mod_converse(0, kk, 0, 0); }
        if i == 0 || i as u64 % bk == 0 {
            assert(max_in(l, i as int, i as int) == 0);
            pre.push(c);
        } else {
            proof { lemma_block_of(i - 1, kk, qi); }
            let p: u8 = pre[i - 1];
            pre.push(if p >= c { p } else { c });
        }
        i = i + 1;
    }
    // Suffix maxima within each block.
    let mut suf: Vec<u8> = Vec::new();
    i = 0;
    while i < n
        invariant
            i <= n,
            suf@.len() == i,
        decreases n - i,
    {
        suf.push(0);
        i = i + 1;
    }
    i = n;
    while i > 0
        invariant
            0 < n <= u32::MAX,
            base + (n - 1) * stride < v@.len(),
            v@.len() <= usize::MAX,
            l == line(v@, base as int, stride as int, n as int),
            kk == bk as int,
            bk > 0,
            i <= n,
            suf@.len() == n,
            forall|j: int| i <= j < n ==> #[trigger] suf@[j] == max_in(l, j, block_end(j, kk, n as int)),
        decreases i,
    {
        let j: usize = i - 1;
        assert(j * stride <= (n - 1) * stride) by (nonlinear_arith)
            requires
                0 <= j <= n - 1,
                0 <= stride,
        ;
        let c: u8 = v[base + j * stride];
        assert(l[j as int] == c);
        let ghost qj = lemma_block_start(j as int, kk);
        if j as u64 % bk == bk - 1 || j == n - 1 {
            assert(block_end(j as int, kk, n as int) == j + 1);
            assert(max_in(l, j as int, j as int) == 0);
            suf.set(j, c);
        } else {
            proof { lemma_block_of(j + 1, kk, qj); }
            proof { lemma_max_in_split(l, j as int, j + 1, block_end(j as int, kk, n as int)); }
            assert(max_in(l, j as int, j + 1) == c) by {
                assert(max_in(l, j as int, j as int) == 0);
            }
            let s: u8 = suf[j + 1];
            suf.set(j, if c >= s { c } else { s });
        }
        i = j;
    }
    // Each window spans at most two blocks.
    let mut out: Vec<u8> = Vec::new();
    let mut k: usize = 0;
    while k < n
        invariant
            0 < n <= u32::MAX,
            l == line(v@, base as int, stride as int, n as int),
            kk == bk as int,
            bk == 2 * q + 1,
            q == if rad < n { rad as int } else { n - 1 },
            pre@.len() == n,
            suf@.len() == n,
            forall|j: int| 0 <= j < n ==> #[trigger] pre@[j] == max_in(l, block_start(j, kk), j + 1),
            forall|j: int| 0 <= j < n ==> #[trigger] suf@[j] == max_in(l, j, block_end(j, kk, n as int)),
            k <= n,
            out@.len() == k,
            forall|j: int|
                0 <= j < k ==> #[trigger] out@[j] == max_in(l, win_lo(j, rad as int), win_hi(j, rad as int, n as int)),
        decreases n - k,
    {
        let lo: usize = if k >= rad { k - rad } else { 0 };
        let hi: usize = if n - k > rad { k + rad + 1 } else { n };
        let last: usize = hi - 1;
        let ghost qm = lemma_block_start(last as int, kk);
        let m: u64 = last as u64 - last as u64 % bk;
        let ghost lo_i = lo as int;
        let ghost hi_i = hi as int;
        assert(hi_i - lo_i <= kk);
        let value: u8 = if (lo as u64) == m {
            pre[last]
        } else if (lo as u64) < m {
            assert(lo_i > m - kk);
            assert((qm - 1) * kk == qm * kk - kk) by (nonlinear_arith);
            proof { lemma_block_of(lo_i, kk, qm - 1); }
            assert(block_end(lo_i, kk, n as int) == m);
            proof { lemma_max_in_split(l, lo_i, m as int, hi_i); }
            let a: u8 = suf[lo];
            let b: u8 = pre[last];
            if a >= b { a } else { b }
        } else {
            proof { lemma_block_of(lo_i, kk, qm); }
            assert(hi == n);
            suf[lo]
        };
        out.push(value);
        k = k + 1;
    }
    out
}

/// Dilates a coverage mask by `radius` under the L-infinity metric: each cell
/// becomes the largest coverage in the square of side `2 * radius + 1`
/// centred on it, cells off the canvas counting as no coverage. Computed in
/// two separable passes, along the rows and then along the columns, each at a
/// cost per cell that does not depend on the radius.
pub fn dilate(mask: &CoverageMask, radius: u32) -> (r: CoverageMask)
    requires
        mask.wf(),
    ensures
        is_dilation(*mask, r, radius as int),
{
    let w: usize = mask.width as usize;
    let h: usize = mask.height as usize;
    let rad: usize = radius as usize;
    let ghost s = mask.values@;
    let ghost ri = radius as int;
    let _n: usize = mask.values.len();
    if w == 0 || h == 0 {
        assert(mask.values@.len() == 0) by (nonlinear_arith)
            requires
                mask.values@.len() == w * h,
                w == 0 || h == 0,
        ;
        return CoverageMask { width: mask.width, height: mask.height, values: Vec::new() };
    }
    let mut rows: Vec<u8> = Vec::new();
    let mut y: usize = 0;
    while y < h
        invariant
            w == mask.width as usize,
            h == mask.height as usize,
            0 < w,
            0 < h,
            rad == radius as usize,
            ri == radius as int,
            s == mask.values@,
            s.len() == w * h,
            w * h <= usize::MAX,
            y <= h,
            rows@.len() == y * w,
            forall|j: int|
                0 <= j < rows@.len() ==> #[trigger] rows@[j] == row_max(s, w as int, ri, j % (w as int), j / (w as int)),
        decreases h - y,
    {
        proof {
            lemma_grid_index(w - 1, y as int, w as int, h as int);
        }
        let line_max = max_filter_line(&mask.values, y * w, 1, w, rad);
        let mut x: usize = 0;
        while x < w
            invariant
                w == mask.width as usize,
                h == mask.height as usize,
                0 < w,
                0 < h,
                ri == radius as int,
                rad == radius as usize,
                s == mask.values@,
                s.len() == w * h,
                w * h <= usize::MAX,
                y < h,
                x <= w,
                rows@.len() == y * w + x,
                line_max@.len() == w,
                forall|k: int| 0 <= k < w ==> #[trigger] line_max@[k] == row_max(s, w as int, ri, k, y as int),
                forall|j: int|
                    0 <= j < rows@.len() ==> #[trigger] rows@[j] == row_max(s, w as int, ri, j % (w as int), j / (w as int)),
            decreases w - x,
        {
            proof {
                lemma_grid_index(x as int, y as int, w as int, h as int);
                lemma_fundamental_div_mod_converse(y * w + x, w as int, y as int, x as int);
            }
            rows.push(line_max[x]);
            x = x + 1;
        }
        assert(y * w + w == (y + 1) * w) by (nonlinear_arith);
        y = y + 1;
    }
    assert(y * w == w * h) by (nonlinear_arith)
        requires
            y == h,
    ;
    let mut cols: Vec<Vec<u8>> = Vec::new();
    let mut x: usize = 0;
    while x < w
        invariant
            w == mask.width as usize,
            h == mask.height as usize,
            0 < w,
            0 < h,
            ri == radius as int,
            rad == radius as usize,
            s == mask.values@,
            s.len() == w * h,
            w * h <= usize::MAX,
            rows@.len() == w * h,
            forall|j: int|
                0 <= j < rows@.len() ==> #[trigger] rows@[j] == row_max(s, w as int, ri, j % (w as int), j / (w as int)),
            x <= w,
            cols@.len() == x,
            forall|c: int| 0 <= c < x ==> (#[trigger] cols@[c])@.len() == h,
            forall|c: int, r: int|
                0 <= c < x && 0 <= r < h ==> #[trigger] cols@[c]@[r] == dilated_at(s, w as int, h as int, ri, c, r),
        decreases w - x,
    {
        proof {
            lemma_grid_index(x as int, h - 1, w as int, h as int);
            let col = Seq::new(h as nat, |y2: int| row_max(s, w as int, ri, x as int, y2));
            assert forall|k: int| 0 <= k < h implies #[trigger] line(rows@, x as int, w as int, h as int)[k]
                == col[k] by {
                lemma_grid_index(x as int, k, w as int, h as int);
                lemma_fundamental_div_mod_converse(k * w + x, w as int, k, x as int);
                assert(rows@[k * w + x] == row_max(s, w as int, ri, (k * w + x) % (w as int), (k * w + x) / (w as int)));
            }
            assert(line(rows@, x as int, w as int, h as int) =~= col);
        }
        let column = max_filter_line(&rows, x, w, h, rad);
        cols.push(column);
        x = x + 1;
    }
    let mut out: Vec<u8> = Vec::new();
    y = 0;
    while y < h
        invariant
            w == mask.width as usize,
            h == mask.height as usize,
            0 < w,
            0 < h,
            ri == radius as int,
            s.len() == w * h,
            w * h <= usize::MAX,
            cols@.len() == w,
            forall|c: int| 0 <= c < w ==> (#[trigger] cols@[c])@.len() == h,
            forall|c: int, r: int|
                0 <= c < w && 0 <= r < h ==> #[trigger] cols@[c]@[r] == dilated_at(s, w as int, h as int, ri, c, r),
            y <= h,
            out@.len() == y * w,
            forall|j: int|
                0 <= j < out@.len() ==> #[trigger] out@[j] == dilated_at(s, w as int, h as int, ri, j % (w as int), j / (w as int)),
        decreases h - y,
    {
        x = 0;
        while x < w
            invariant
                w == mask.width as usize,
                h == mask.height as usize,
                0 < w,
                0 < h,
                ri == radius as int,
                s.len() == w * h,
                w * h <= usize::MAX,
                cols@.len() == w,
                forall|c: int| 0 <= c < w ==> (#[trigger] cols@[c])@.len() == h,
                forall|c: int, r: int|
                    0 <= c < w && 0 <= r < h ==> #[trigger] cols@[c]@[r] == dilated_at(s, w as int, h as int, ri, c, r),
                y < h,
                x <= w,
                out@.len() == y * w + x,
                forall|j: int|
                    0 <= j < out@.len() ==> #[trigger] out@[j] == dilated_at(s, w as int, h as int, ri, j % (w as int), j / (w as int)),
            decreases w - x,
        {
            proof {
                lemma_grid_index(x as int, y as int, w as int, h as int);
                lemma_fundamental_div_mod_converse(y * w + x, w as int, y as int, x as int);
            }
            assert(cols@[x as int]@.len() == h);
            out.push(cols[x][y]);
            x = x + 1;
        }
        assert(y * w + w == (y + 1) * w) by (nonlinear_arith);
        y = y + 1;
    }
    let result = CoverageMask { width: mask.width, height: mask.height, values: out };
    assert forall|x: int, y: int| 0 <= x < mask.width && 0 <= y < mask.height implies #[trigger] result.at(x, y)
        == dilated_at(s, w as int, h as int, ri, x, y) by {
        lemma_grid_index(x, y, w as int, h as int);
        lemma_fundamental_div_mod_converse(y * w + x, w as int, y, x);
    }
    result
}

} // verus!
