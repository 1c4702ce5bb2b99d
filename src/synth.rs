use vstd::prelude::*;

use crate::arith::{lemma_grid_index, lemma_grid_row};
use crate::depth::Heightmap;
use crate::pattern::{PatternTile, Rgb};

verus! {

/// The viewing geometry that turns depth into horizontal separation, and the
/// size of the output.
pub struct DisparityParams {
    pub near_distance: u16,
    pub far_distance: u16,
    pub eye_separation: u16,
    pub observer_distance: u16,
    pub width: usize,
    pub height: usize,
}

/// Why a synthesis pass was refused before any pixel was produced.
#[derive(Clone, Copy, Debug, PartialEq, Eq, Structural)]
pub enum SynthError {
    /// The distances do not describe a usable geometry.
    InvalidParams,
    /// The depth field or the pattern tile does not have the configured size.
    DimensionMismatch,
}

impl DisparityParams {
    /// Near is closer than far, the apparent distance never turns negative,
    /// and the observer stands at a positive distance.
    pub open spec fn wf(&self) -> bool {
        &&& 0 < self.near_distance
        &&& self.near_distance < self.far_distance
        &&& self.far_distance <= 2 * self.near_distance
        &&& 0 < self.observer_distance
    }

    pub fn is_valid(&self) -> (r: bool)
        ensures
            r == self.wf(),
    {
        0 < self.near_distance && self.near_distance < self.far_distance
            && self.far_distance as u32 <= 2 * self.near_distance as u32
            && 0 < self.observer_distance
    }
}

/// 255 times the apparent distance `near + (near - far) * d / 255` of depth
/// sample `d`.
pub open spec fn scaled_distance(p: DisparityParams, d: int) -> int {
    255 * p.near_distance + (p.near_distance - p.far_distance) * d
}

/// The separation `eye * z / (z + observer)` of depth sample `d`, truncated
/// to an integer.
pub open spec fn separation(p: DisparityParams, d: int) -> int {
    let z = scaled_distance(p, d);
    (p.eye_separation * z) / (z + 255 * p.observer_distance)
}

proof fn lemma_scaled_distance_bounds(p: DisparityParams, d: int)
    requires
        p.wf(),
        0 <= d <= 255,
    ensures
        0 <= scaled_distance(p, d) <= 255 * p.near_distance,
{
    let k = p.far_distance - p.near_distance;
    assert(0 <= k * d <= 255 * p.near_distance) by (nonlinear_arith)
        requires 0 <= k <= p.near_distance, 0 <= d <= 255;
    assert((p.near_distance - p.far_distance) * d == -(k * d)) by (nonlinear_arith)
        requires k == p.far_distance - p.near_distance;
}

proof fn lemma_div_le_bound(a: int, b: int, e: int)
    requires
        0 <= a <= e * b,
        0 < b,
        0 <= e,
    ensures
        0 <= a / b <= e,
{
    assert(0 <= a / b <= e) by (nonlinear_arith)
        requires 0 <= a <= e * b, 0 < b, 0 <= e;
}

/// Separation of depth sample `d`, in columns: between zero and the eye
/// separation.
pub fn disparity(p: &DisparityParams, d: u8) -> (r: usize)
    requires
        p.wf(),
    ensures
        r == separation(*p, d as int),
        r <= p.eye_separation,
{
    proof {
        lemma_scaled_distance_bounds(*p, d as int);
        assert((p.far_distance - p.near_distance) * (d as int) <= 255 * p.near_distance)
            by (nonlinear_arith)
            requires p.far_distance - p.near_distance <= p.near_distance, 0 <= d <= 255;
    }
    let z: u64 = 255 * p.near_distance as u64 - (p.far_distance - p.near_distance) as u64
        * d as u64;
    let den: u64 = z + 255 * p.observer_distance as u64;
    proof {
        assert(z == scaled_distance(*p, d as int)) by (nonlinear_arith)
            requires z == 255 * p.near_distance - (p.far_distance - p.near_distance) * d;
        let e = p.eye_separation as int;
        assert(0 <= e * z <= e * den) by (nonlinear_arith)
            requires 0 <= e, 0 <= z <= den;
        assert(e * z <= 65535 * (255 * 65535)) by (nonlinear_arith)
            requires 0 <= e <= 65535, 0 <= z <= 255 * 65535;
        lemma_div_le_bound(e * z, den as int, e);
    }
    let s: u64 = (p.eye_separation as u64 * z) / den;
    s as usize
}

/// The left partner column of column `x`; it may fall off the row.
pub open spec fn link_left(p: DisparityParams, row: Seq<u8>, x: int) -> int {
    x - separation(p, row[x] as int) / 2
}

/// The right partner column of column `x`; it may fall off the row.
pub open spec fn link_right(p: DisparityParams, row: Seq<u8>, x: int) -> int {
    link_left(p, row, x) + separation(p, row[x] as int)
}

/// Column `x`'s pair of partner columns lies inside the row.
pub open spec fn link_in_row(p: DisparityParams, row: Seq<u8>, x: int) -> bool {
    link_left(p, row, x) >= 0 && link_right(p, row, x) < row.len()
}

/// The look table after linking columns `0..n` of `row`, in ascending order.
pub open spec fn link_upto(p: DisparityParams, row: Seq<u8>, n: nat) -> Seq<int>
    decreases n,
{
    if n == 0 {
        Seq::new(row.len(), |i: int| i)
    } else {
        let prev = link_upto(p, row, (n - 1) as nat);
        let x = n - 1;
        if link_in_row(p, row, x) {
            prev.update(link_right(p, row, x), link_left(p, row, x))
        } else {
            prev
        }
    }
}

/// The complete look table of `row`.
pub open spec fn look_table(p: DisparityParams, row: Seq<u8>) -> Seq<int> {
    link_upto(p, row, row.len())
}

/// Every column points to itself or to a column on its left.
pub open spec fn look_ok(look: Seq<int>, w: int) -> bool {
    &&& look.len() == w
    &&& forall|i: int| 0 <= i < w ==> #[trigger] look[i] == i || 0 <= look[i] < i
}

proof fn lemma_separation_bounds(p: DisparityParams, d: int)
    requires
        p.wf(),
        0 <= d <= 255,
    ensures
        0 <= separation(p, d) <= p.eye_separation,
{
    lemma_scaled_distance_bounds(p, d);
    let z = scaled_distance(p, d);
    let den = z + 255 * p.observer_distance;
    let e = p.eye_separation as int;
    assert(0 <= e * z <= e * den) by (nonlinear_arith)
        requires 0 <= e, 0 <= z <= den;
    lemma_div_le_bound(e * z, den, e);
}

/// Linking keeps every column pointing to itself or to its left.
pub proof fn lemma_link_ok(p: DisparityParams, row: Seq<u8>, n: nat)
    requires
        p.wf(),
        n <= row.len(),
    ensures
        look_ok(link_upto(p, row, n), row.len() as int),
    decreases n,
{
    if n > 0 {
        lemma_link_ok(p, row, (n - 1) as nat);
        lemma_separation_bounds(p, row[n - 1] as int);
    }
}

/// A column that no in-row link targets stays self-linked: links whose left
/// column falls before the row or whose right column falls past it leave the
/// look table as it was.
pub proof fn lemma_unlinked_column_stays(p: DisparityParams, row: Seq<u8>, n: nat, r: int)
    requires
        p.wf(),
        n <= row.len(),
        0 <= r < row.len(),
        forall|x: int|
            0 <= x < n && #[trigger] link_in_row(p, row, x) ==> link_right(p, row, x) != r,
    ensures
        link_upto(p, row, n).len() == row.len(),
        link_upto(p, row, n)[r] == r,
    decreases n,
{
    if n > 0 {
        lemma_unlinked_column_stays(p, row, (n - 1) as nat, r);
        lemma_separation_bounds(p, row[n - 1] as int);
    } else {
        assert(link_upto(p, row, 0) == Seq::new(row.len(), |i: int| i));
    }
}

/// Linking one column whose partner falls outside the row changes nothing.
pub proof fn lemma_out_of_row_link_is_skipped(p: DisparityParams, row: Seq<u8>, n: nat)
    requires
        0 < n <= row.len(),
        !link_in_row(p, row, n - 1),
    ensures
        link_upto(p, row, n) == link_upto(p, row, (n - 1) as nat),
{
}

/// A larger depth sample is strictly nearer, and its separation never grows:
/// a nearer sample is drawn with a smaller or equal repeat.
pub proof fn lemma_disparity_monotonic(p: DisparityParams, d1: int, d2: int)
    requires
        p.wf(),
        0 <= d1 <= d2 <= 255,
    ensures
        d1 < d2 ==> scaled_distance(p, d2) < scaled_distance(p, d1),
        separation(p, d2) <= separation(p, d1),
{
    if d1 < d2 {
        assert((p.near_distance - p.far_distance) * d2 < (p.near_distance - p.far_distance) * d1)
            by (nonlinear_arith)
            requires p.near_distance - p.far_distance < 0, d1 < d2;
    }
    lemma_scaled_distance_bounds(p, d1);
    lemma_scaled_distance_bounds(p, d2);
    let z1 = scaled_distance(p, d1);
    let z2 = scaled_distance(p, d2);
    let k = 255 * p.observer_distance as int;
    let e = p.eye_separation as int;
    assert(z2 <= z1) by (nonlinear_arith)
        requires z1 == 255 * p.near_distance + (p.near_distance - p.far_distance) * d1,
            z2 == 255 * p.near_distance + (p.near_distance - p.far_distance) * d2,
            p.near_distance - p.far_distance <= 0, d1 <= d2;
    let a = e * z2;
    let b = z2 + k;
    let c = e * z1;
    let q = c / (z1 + k);
    let q2 = a / b;
    assert(a * (z1 + k) <= c * b) by (nonlinear_arith)
        requires a == e * z2, c == e * z1, b == z2 + k, 0 <= e, 0 <= k, 0 <= z2 <= z1;
    assert(q2 * b <= a) by (nonlinear_arith)
        requires q2 == a / b, 0 < b, 0 <= a;
    assert(q2 * b * (z1 + k) <= c * b) by (nonlinear_arith)
        requires q2 * b <= a, a * (z1 + k) <= c * b, 0 < z1 + k;
    assert(q2 * (z1 + k) <= c) by (nonlinear_arith)
        requires q2 * b * (z1 + k) <= c * b, 0 < b;
    assert(q2 <= q) by (nonlinear_arith)
        requires q2 * (z1 + k) <= c, q == c / (z1 + k), 0 < z1 + k, 0 <= c;
}

/// Row `y` of a `p.width`-wide depth grid.
pub open spec fn depth_row(p: DisparityParams, depth: Seq<u8>, y: int) -> Seq<u8> {
    depth.subrange(y * p.width, y * p.width + p.width)
}

/// The pattern colour that column `x` of row `y` takes when it is a seed:
/// the tile repeats in both directions.
pub open spec fn pattern_sample(pat: Seq<Rgb>, pw: int, ph: int, x: int, y: int) -> Rgb {
    pat[(y % ph) * pw + x % pw]
}

/// Colours of columns `0..n` of row `y`: a self-linked column takes the
/// pattern's colour, any other copies the colour of the column it looks at.
pub open spec fn resolve_upto(
    look: Seq<int>,
    pat: Seq<Rgb>,
    pw: int,
    ph: int,
    y: int,
    n: nat,
) -> Seq<Rgb>
    decreases n,
{
    if n == 0 {
        Seq::empty()
    } else {
        let prev = resolve_upto(look, pat, pw, ph, y, (n - 1) as nat);
        let x = n - 1;
        if look[x] == x {
            prev.push(pattern_sample(pat, pw, ph, x, y))
        } else {
            prev.push(prev[look[x]])
        }
    }
}

/// The colours of row `y`, whose depth samples are `row`.
pub open spec fn row_colors(
    p: DisparityParams,
    row: Seq<u8>,
    pat: Seq<Rgb>,
    pw: int,
    ph: int,
    y: int,
) -> Seq<Rgb> {
    resolve_upto(look_table(p, row), pat, pw, ph, y, row.len())
}

/// Rows `0..k` of the stereogram, concatenated.
pub open spec fn rows_upto(
    p: DisparityParams,
    depth: Seq<u8>,
    pat: Seq<Rgb>,
    pw: int,
    ph: int,
    k: nat,
) -> Seq<Rgb>
    decreases k,
{
    if k == 0 {
        Seq::empty()
    } else {
        rows_upto(p, depth, pat, pw, ph, (k - 1) as nat) + row_colors(
            p,
            depth_row(p, depth, k - 1),
            pat,
            pw,
            ph,
            k - 1,
        )
    }
}

/// The whole colour buffer, row-major.
pub open spec fn stereogram(p: DisparityParams, depth: Seq<u8>, pat: Seq<Rgb>, pw: int, ph: int) -> Seq<Rgb> {
    rows_upto(p, depth, pat, pw, ph, p.height as nat)
}

/// The depth field and the pattern tile have the sizes that `p` asks for.
pub open spec fn dims_ok(p: DisparityParams, depth: Heightmap, pattern: PatternTile) -> bool {
    &&& depth.width == p.width
    &&& depth.height == p.height
    &&& depth.pixels@.len() == p.width * p.height
    &&& pattern.wf()
    &&& pattern.height == p.height
}

/// The look table of row `y`: entry `x` is `x` for a seed column, else the
/// column on its left whose colour it repeats.
pub fn link_row(p: &DisparityParams, depth: &Heightmap, y: usize) -> (look: Vec<usize>)
    requires
        p.wf(),
        depth.wf(),
        depth.width == p.width,
        y < depth.height,
    ensures
        look@.len() == p.width,
        forall|i: int|
            0 <= i < p.width ==> #[trigger] look@[i] as int == look_table(
                *p,
                depth_row(*p, depth.pixels@, y as int),
            )[i],
{
    let w = depth.width;
    let n = depth.pixels.len();
    proof {
        lemma_grid_row(y as int, w as int, depth.height as int);
    }
    let start: usize = y * w;
    let ghost row = depth_row(*p, depth.pixels@, y as int);
    let mut look: Vec<usize> = Vec::new();
    let mut i: usize = 0;
    while i < w
        invariant
            i <= w,
            look@.len() == i,
            forall|j: int| 0 <= j < i ==> #[trigger] look@[j] == j,
        decreases w - i,
    {
        look.push(i);
        i += 1;
    }
    proof {
        assert(row.len() == w);
        assert forall|j: int| 0 <= j < w implies #[trigger] look@[j] as int == link_upto(*p, row, 0)[j] by {}
    }
    let mut x: usize = 0;
    while x < w
        invariant
            p.wf(),
            w == p.width,
            row.len() == w,
            start + w <= n,
            n == depth.pixels@.len(),
            row == depth.pixels@.subrange(start as int, start + w),
            x <= w,
            look@.len() == w,
            forall|j: int| 0 <= j < w ==> #[trigger] look@[j] as int == link_upto(*p, row, x as nat)[j],
        decreases w - x,
    {
        proof {
            lemma_link_ok(*p, row, x as nat);
        }
        let d = depth.pixels[start + x];
        assert(d == row[x as int]);
        let sep = disparity(p, d);
        let half = sep / 2;
        if x >= half {
            let left = x - half;
            if sep < w - left {
                let right = left + sep;
                look.set(right, left);
            }
        }
        proof {
            let prev = link_upto(*p, row, x as nat);
            assert(link_upto(*p, row, (x + 1) as nat) == if link_in_row(*p, row, x as int) {
                prev.update(link_right(*p, row, x as int), link_left(*p, row, x as int))
            } else {
                prev
            });
        }
        x += 1;
    }
    look
}

/// Resolving `n` columns gives `n` colours, and a column's colour is fixed
/// once it has been resolved.
pub proof fn lemma_resolve_prefix(
    look: Seq<int>,
    pat: Seq<Rgb>,
    pw: int,
    ph: int,
    y: int,
    n: nat,
)
    ensures
        resolve_upto(look, pat, pw, ph, y, n).len() == n,
        forall|i: int|
            0 <= i < n ==> #[trigger] resolve_upto(look, pat, pw, ph, y, n)[i] == resolve_upto(
                look,
                pat,
                pw,
                ph,
                y,
                (i + 1) as nat,
            )[i],
    decreases n,
{
    if n > 0 {
        lemma_resolve_prefix(look, pat, pw, ph, y, (n - 1) as nat);
    }
}

/// A seed column, one that the linking pass left pointing to itself, takes
/// its colour straight from the tiled pattern.
pub proof fn lemma_seed_column(
    p: DisparityParams,
    row: Seq<u8>,
    pat: Seq<Rgb>,
    pw: int,
    ph: int,
    y: int,
    x: int,
)
    requires
        0 <= x < row.len(),
        look_table(p, row)[x] == x,
    ensures
        row_colors(p, row, pat, pw, ph, y)[x] == pattern_sample(pat, pw, ph, x, y),
{
    let look = look_table(p, row);
    lemma_resolve_prefix(look, pat, pw, ph, y, row.len());
    lemma_resolve_prefix(look, pat, pw, ph, y, x as nat);
}

/// A linked column repeats the resolved colour of the column it looks at,
/// which lies on its left in the same row.
pub proof fn lemma_linked_column(
    p: DisparityParams,
    row: Seq<u8>,
    pat: Seq<Rgb>,
    pw: int,
    ph: int,
    y: int,
    x: int,
)
    requires
        p.wf(),
        0 <= x < row.len(),
        look_table(p, row)[x] != x,
    ensures
        0 <= look_table(p, row)[x] < x,
        row_colors(p, row, pat, pw, ph, y)[x] == row_colors(p, row, pat, pw, ph, y)[look_table(
            p,
            row,
        )[x]],
{
    let look = look_table(p, row);
    lemma_link_ok(p, row, row.len());
    assert(look[x] == x || 0 <= look[x] < x);
    lemma_resolve_prefix(look, pat, pw, ph, y, row.len());
    lemma_resolve_prefix(look, pat, pw, ph, y, x as nat);
}

/// Appends the colours of row `y` to `out`, resolving its look table in
/// ascending column order.
fn resolve_row(
    look: &Vec<usize>,
    Ghost(lk): Ghost<Seq<int>>,
    pattern: &PatternTile,
    y: usize,
    out: &mut Vec<Rgb>,
)
    requires
        pattern.wf(),
        look_ok(lk, look@.len() as int),
        forall|i: int| 0 <= i < look@.len() ==> #[trigger] look@[i] as int == lk[i],
        old(out)@.len() + look@.len() <= usize::MAX,
    ensures
        final(out)@ == old(out)@ + resolve_upto(
            lk,
            pattern.pixels@,
            pattern.width as int,
            pattern.height as int,
            y as int,
            look@.len() as nat,
        ),
{
    let ghost pat = pattern.pixels@;
    let ghost pw = pattern.width as int;
    let ghost ph = pattern.height as int;
    let ghost start = old(out)@;
    let base = out.len();
    let w = look.len();
    let mut x: usize = 0;
    while x < w
        invariant
            pattern.wf(),
            pat == pattern.pixels@,
            pw == pattern.width,
            ph == pattern.height,
            w == look@.len(),
            look_ok(lk, w as int),
            forall|i: int| 0 <= i < w ==> #[trigger] look@[i] as int == lk[i],
            base == start.len(),
            base + w <= usize::MAX,
            x <= w,
            out@ == start + resolve_upto(lk, pat, pw, ph, y as int, x as nat),
        decreases w - x,
    {
        proof {
            lemma_resolve_prefix(lk, pat, pw, ph, y as int, x as nat);
        }
        let target = look[x];
        assert(target as int == lk[x as int]);
        let c = if target == x {
            pattern.at(x % pattern.width, y % pattern.height)
        } else {
            out[base + target]
        };
        out.push(c);
        proof {
            assert(out@ =~= start + resolve_upto(lk, pat, pw, ph, y as int, (x + 1) as nat));
        }
        x += 1;
    }
}

/// Synthesises the stereogram of `depth` seeded by `pattern`: one colour per
/// output pixel, row-major. Refuses invalid distances, then any size that
/// disagrees with `p`, before doing any pixel work.
pub fn synthesize(depth: &Heightmap, pattern: &PatternTile, p: &DisparityParams) -> (r: Result<
    Vec<Rgb>,
    SynthError,
>)
    ensures
        !p.wf() ==> r == Err::<Vec<Rgb>, SynthError>(SynthError::InvalidParams),
        p.wf() && !dims_ok(*p, *depth, *pattern) ==> r == Err::<Vec<Rgb>, SynthError>(
            SynthError::DimensionMismatch,
        ),
        p.wf() && dims_ok(*p, *depth, *pattern) ==> (r matches Ok(v) && v@ == stereogram(
            *p,
            depth.pixels@,
            pattern.pixels@,
            pattern.width as int,
            pattern.height as int,
        )),
{
    if !p.is_valid() {
        return Err(SynthError::InvalidParams);
    }
    let w = p.width;
    let h = p.height;
    if depth.width != w || depth.height != h || pattern.height != h || pattern.width == 0
        || pattern.height == 0 {
        return Err(SynthError::DimensionMismatch);
    }
    let dl = depth.pixels.len();
    let pl = pattern.pixels.len();
    match w.checked_mul(h) {
        None => {
            return Err(SynthError::DimensionMismatch);
        },
        Some(n) => {
            if dl != n {
                return Err(SynthError::DimensionMismatch);
            }
        },
    }
    match pattern.width.checked_mul(pattern.height) {
        None => {
            return Err(SynthError::DimensionMismatch);
        },
        Some(m) => {
            if pl != m {
                return Err(SynthError::DimensionMismatch);
            }
        },
    }
    let ghost dp = depth.pixels@;
    let ghost pat = pattern.pixels@;
    let ghost pw = pattern.width as int;
    let ghost ph = pattern.height as int;
    let mut out: Vec<Rgb> = Vec::new();
    let mut y: usize = 0;
    let mut base: usize = 0;
    while y < h
        invariant
            p.wf(),
            dims_ok(*p, *depth, *pattern),
            w == p.width,
            h == p.height,
            dp == depth.pixels@,
            pat == pattern.pixels@,
            pw == pattern.width,
            ph == pattern.height,
            dl == w * h,
            y <= h,
            base == y * w,
            out@.len() == base,
            out@ == rows_upto(*p, dp, pat, pw, ph, y as nat),
        decreases h - y,
    {
        proof {
            lemma_grid_row(y as int, w as int, h as int);
        }
        let look = link_row(p, depth, y);
        let ghost row = depth_row(*p, dp, y as int);
        let ghost lk = look_table(*p, row);
        proof {
            lemma_link_ok(*p, row, row.len());
        }
        resolve_row(&look, Ghost(lk), pattern, y, &mut out);
        proof {
            lemma_resolve_prefix(lk, pat, pw, ph, y as int, w as nat);
            assert(out@ =~= rows_upto(*p, dp, pat, pw, ph, (y + 1) as nat));
        }
        base = base + w;
        y += 1;
    }
    Ok(out)
}

/// The buffer is its rows laid end to end: pixel `(x, y)` stands at
/// `y * width + x` and holds column `x` of row `y`'s colours.
pub proof fn lemma_stereogram_rows(
    p: DisparityParams,
    depth: Seq<u8>,
    pat: Seq<Rgb>,
    pw: int,
    ph: int,
    k: nat,
)
    requires
        depth.len() == p.width * p.height,
        k <= p.height,
    ensures
        rows_upto(p, depth, pat, pw, ph, k).len() == k * p.width,
        forall|y: int, x: int|
            0 <= y < k && 0 <= x < p.width ==> rows_upto(p, depth, pat, pw, ph, k)[y * p.width
                + x] == #[trigger] row_colors(p, depth_row(p, depth, y), pat, pw, ph, y)[x],
    decreases k,
{
    if k > 0 {
        let w = p.width as int;
        let y0 = k - 1;
        lemma_stereogram_rows(p, depth, pat, pw, ph, (k - 1) as nat);
        lemma_grid_row(y0, w, p.height as int);
        let row = depth_row(p, depth, y0);
        assert(row.len() == w);
        lemma_resolve_prefix(look_table(p, row), pat, pw, ph, y0, row.len());
        let prev = rows_upto(p, depth, pat, pw, ph, (k - 1) as nat);
        assert forall|y: int, x: int|
            0 <= y < k && 0 <= x < w implies rows_upto(p, depth, pat, pw, ph, k)[y * w + x]
            == #[trigger] row_colors(p, depth_row(p, depth, y), pat, pw, ph, y)[x] by {
            if y < y0 {
                lemma_grid_index(x, y, w, y0);
                assert(rows_upto(p, depth, pat, pw, ph, (k - 1) as nat)[y * w + x]
                    == row_colors(p, depth_row(p, depth, y), pat, pw, ph, y)[x]);
            }
        }
    }
}

/// Every seed pixel of the buffer, one whose column the linking pass left
/// pointing to itself, holds the pattern sampled at `(x mod pattern width,
/// y mod pattern height)`.
pub proof fn lemma_seed_pixel(
    p: DisparityParams,
    depth: Seq<u8>,
    pat: Seq<Rgb>,
    pw: int,
    ph: int,
    x: int,
    y: int,
)
    requires
        depth.len() == p.width * p.height,
        0 <= x < p.width,
        0 <= y < p.height,
        look_table(p, depth_row(p, depth, y))[x] == x,
    ensures
        stereogram(p, depth, pat, pw, ph)[y * p.width + x] == pattern_sample(pat, pw, ph, x, y),
{
    lemma_stereogram_rows(p, depth, pat, pw, ph, p.height as nat);
    lemma_grid_row(y, p.width as int, p.height as int);
    lemma_seed_column(p, depth_row(p, depth, y), pat, pw, ph, y, x);
}

/// Every linked pixel of the buffer repeats the pixel of the same row that
/// its column looks at, which lies on its left.
pub proof fn lemma_linked_pixel(
    p: DisparityParams,
    depth: Seq<u8>,
    pat: Seq<Rgb>,
    pw: int,
    ph: int,
    x: int,
    y: int,
)
    requires
        p.wf(),
        depth.len() == p.width * p.height,
        0 <= x < p.width,
        0 <= y < p.height,
        look_table(p, depth_row(p, depth, y))[x] != x,
    ensures
        0 <= look_table(p, depth_row(p, depth, y))[x] < x,
        stereogram(p, depth, pat, pw, ph)[y * p.width + x] == stereogram(p, depth, pat, pw, ph)[y
            * p.width + look_table(p, depth_row(p, depth, y))[x]],
{
    lemma_stereogram_rows(p, depth, pat, pw, ph, p.height as nat);
    lemma_grid_row(y, p.width as int, p.height as int);
    let row = depth_row(p, depth, y);
    lemma_linked_column(p, row, pat, pw, ph, y, x);
    let t = look_table(p, row)[x];
    assert(row_colors(p, row, pat, pw, ph, y)[t] == stereogram(p, depth, pat, pw, ph)[y * p.width
        + t]);
}

/// Synthesis depends on the contents of its inputs alone: two depth fields
/// with the same samples and two tiles with the same pixels and size give the
/// same buffer under the same parameters.
pub proof fn lemma_synthesis_deterministic(
    p: DisparityParams,
    d1: Heightmap,
    d2: Heightmap,
    t1: PatternTile,
    t2: PatternTile,
)
    requires
        d1.width == d2.width,
        d1.height == d2.height,
        d1.pixels@ == d2.pixels@,
        t1.pixels@ == t2.pixels@,
        t1.width == t2.width,
        t1.height == t2.height,
    ensures
        dims_ok(p, d1, t1) == dims_ok(p, d2, t2),
        stereogram(p, d1.pixels@, t1.pixels@, t1.width as int, t1.height as int) == stereogram(
            p,
            d2.pixels@,
            t2.pixels@,
            t2.width as int,
            t2.height as int,
        ),
{
}

proof fn lemma_link_upto_agree(p: DisparityParams, r1: Seq<u8>, r2: Seq<u8>, n: nat)
    requires
        r1.len() == r2.len(),
        n <= r1.len(),
        forall|x: int|
            0 <= x < r1.len() && #[trigger] r1[x] != r2[x] ==> !link_in_row(p, r1, x)
                && !link_in_row(p, r2, x),
    ensures
        link_upto(p, r1, n) == link_upto(p, r2, n),
    decreases n,
{
    if n > 0 {
        lemma_link_upto_agree(p, r1, r2, (n - 1) as nat);
        let x = n - 1;
        if r1[x] == r2[x] {
            assert(link_left(p, r1, x) == link_left(p, r2, x));
            assert(link_right(p, r1, x) == link_right(p, r2, x));
        }
    } else {
        assert(link_upto(p, r1, 0) =~= link_upto(p, r2, 0));
    }
}

proof fn lemma_rows_agree(
    p: DisparityParams,
    d1: Seq<u8>,
    d2: Seq<u8>,
    pat: Seq<Rgb>,
    pw: int,
    ph: int,
    k: nat,
)
    requires
        d1.len() == p.width * p.height,
        d2.len() == d1.len(),
        k <= p.height,
        forall|y: int, x: int|
            0 <= y < p.height && 0 <= x < p.width && #[trigger] depth_row(p, d1, y)[x]
                != depth_row(p, d2, y)[x] ==> !link_in_row(p, depth_row(p, d1, y), x)
                && !link_in_row(p, depth_row(p, d2, y), x),
    ensures
        rows_upto(p, d1, pat, pw, ph, k) == rows_upto(p, d2, pat, pw, ph, k),
    decreases k,
{
    if k > 0 {
        let y = k - 1;
        lemma_rows_agree(p, d1, d2, pat, pw, ph, (k - 1) as nat);
        lemma_grid_row(y, p.width as int, p.height as int);
        let r1 = depth_row(p, d1, y);
        let r2 = depth_row(p, d2, y);
        assert forall|x: int| 0 <= x < r1.len() && #[trigger] r1[x] != r2[x] implies !link_in_row(
            p,
            r1,
            x,
        ) && !link_in_row(p, r2, x) by {
            assert(depth_row(p, d1, y)[x] != depth_row(p, d2, y)[x]);
        }
        lemma_link_upto_agree(p, r1, r2, r1.len());
    }
}

/// Depth samples whose link falls off the row never reach the output: two
/// depth grids that differ only at such samples give the same buffer.
pub proof fn lemma_out_of_row_samples_are_invisible(
    p: DisparityParams,
    d1: Seq<u8>,
    d2: Seq<u8>,
    pat: Seq<Rgb>,
    pw: int,
    ph: int,
)
    requires
        d1.len() == p.width * p.height,
        d2.len() == d1.len(),
        forall|y: int, x: int|
            0 <= y < p.height && 0 <= x < p.width && #[trigger] depth_row(p, d1, y)[x]
                != depth_row(p, d2, y)[x] ==> !link_in_row(p, depth_row(p, d1, y), x)
                && !link_in_row(p, depth_row(p, d2, y), x),
    ensures
        stereogram(p, d1, pat, pw, ph) == stereogram(p, d2, pat, pw, ph),
{
    lemma_rows_agree(p, d1, d2, pat, pw, ph, p.height as nat);
}

} // verus!
