//! Rigid motion across two frames: where the frames changed, and which
//! changed places belong together.
//!
//! A pixel changed when some channel differs by at least the threshold.
//! Changed pixels are bucketed into 8 by 8 cells; texture leaves holes in a
//! raw difference mask, so cells are joined through their 8 neighbours, which
//! keeps one textured surface one region while spatially separate motions
//! stay apart. Each region is then measured: how many changed pixels it holds
//! and their bounding box.
use vstd::prelude::*;
use crate::components::{cell_components, components_of};
use crate::format::{f32_gt_zero, f32_is_finite, gt_zero, is_finite};

verus! {

/// Edge of a change cell, in pixels.
pub const CELL: u32 = 8;

/// Regions with fewer changed pixels than this are noise, not motion.
pub const MIN_CHANGED: usize = 8;

// ── rectangles ───────────────────────────────────────────────────────────

/// Why four numbers do not make a rectangle.
#[derive(Clone, Copy, Debug, PartialEq, Eq)]
pub enum RectError {
    /// Not exactly four numbers.
    Count(usize),
    /// An infinity or a NaN among them.
    NonFinite,
    /// A width or height that is not positive.
    NonPositive,
}

pub open spec fn spec_check_rect(v: Seq<u32>) -> Result<(u32, u32, u32, u32), RectError> {
    if v.len() != 4 {
        Err(RectError::Count(v.len() as usize))
    } else if !(forall|i: int| 0 <= i < 4 ==> f32_is_finite(#[trigger] v[i])) {
        Err(RectError::NonFinite)
    } else if !f32_gt_zero(v[2]) || !f32_gt_zero(v[3]) {
        Err(RectError::NonPositive)
    } else {
        Ok((v[0], v[1], v[2], v[3]))
    }
}

/// Checks the numbers of `X,Y,W,H` (bit patterns of `f32`s): exactly four,
/// all finite, positive width and height. Gives them back as `(x, y, w, h)`.
pub fn check_rect(v: &Vec<u32>) -> (r: Result<(u32, u32, u32, u32), RectError>)
    ensures
        r == spec_check_rect(v@),
{
    if v.len() != 4 {
        return Err(RectError::Count(v.len()));
    }
    let mut i: usize = 0;
    while i < 4
        invariant
            v.len() == 4,
            i <= 4,
            forall|k: int| 0 <= k < i ==> f32_is_finite(#[trigger] v@[k]),
        decreases 4 - i,
    {
        if !is_finite(v[i]) {
            assert(!f32_is_finite(v@[i as int]));
            return Err(RectError::NonFinite);
        }
        i += 1;
    }
    if !gt_zero(v[2]) || !gt_zero(v[3]) {
        return Err(RectError::NonPositive);
    }
    Ok((v[0], v[1], v[2], v[3]))
}

// ── search options ───────────────────────────────────────────────────────

/// How far and how finely translations are searched. `range` is the bit
/// pattern of an `f32`: the largest shift tried, in normalized units.
#[derive(Clone, Copy, Debug, PartialEq, Eq)]
pub struct Options {
    pub range: u32,
    pub levels: u32,
    pub max_side: u32,
}

impl Default for Options {
    /// A tenth of the long edge, five refinement levels, 128 pixels.
    fn default() -> (o: Self)
        ensures
            o.range == 0x3dcc_cccdu32,
            o.levels == 5,
            o.max_side == 128,
    {
        Options { range: 0x3dcc_cccd, levels: 5, max_side: 128 }
    }
}

/// Which search option is out of range.
#[derive(Clone, Copy, Debug, PartialEq, Eq)]
pub enum OptionError {
    /// `range` is not positive and finite.
    Range,
    /// `levels` is zero.
    Levels,
    /// `max_side` is zero.
    MaxSide,
}

pub open spec fn spec_check_options(o: Options) -> Result<(), OptionError> {
    if !(f32_is_finite(o.range) && f32_gt_zero(o.range)) {
        Err(OptionError::Range)
    } else if o.levels == 0 {
        Err(OptionError::Levels)
    } else if o.max_side == 0 {
        Err(OptionError::MaxSide)
    } else {
        Ok(())
    }
}

impl Options {
    /// A positive finite range, at least one level, a positive working size.
    pub fn check(&self) -> (r: Result<(), OptionError>)
        ensures
            r == spec_check_options(*self),
            r is Ok <==> f32_is_finite(self.range) && f32_gt_zero(self.range) && self.levels > 0
                && self.max_side > 0,
            !(f32_is_finite(self.range) && f32_gt_zero(self.range)) ==> r == Err::<(), OptionError>(
                OptionError::Range,
            ),
    {
        if !(is_finite(self.range) && gt_zero(self.range)) {
            Err(OptionError::Range)
        } else if self.levels == 0 {
            Err(OptionError::Levels)
        } else if self.max_side == 0 {
            Err(OptionError::MaxSide)
        } else {
            Ok(())
        }
    }
}

/// A search range is a positive, finite distance: the options are accepted
/// only with a range above zero, so a negative, zero, infinite or NaN range
/// is refused as a range error, whatever the other options hold.
pub proof fn lemma_search_range_positive(o: Options)
    ensures
        spec_check_options(o) is Ok ==> f32_is_finite(o.range) && f32_gt_zero(o.range) && o.levels >= 1
            && o.max_side >= 1,
        o.range & 0x8000_0000u32 != 0 ==> spec_check_options(o) == Err::<(), OptionError>(OptionError::Range),
        o.range & 0x7fff_ffffu32 == 0 ==> spec_check_options(o) == Err::<(), OptionError>(OptionError::Range),
{
}

// ── changed pixels, bucketed into cells ──────────────────────────────────

pub open spec fn abs_diff(x: u8, y: u8) -> int {
    if x >= y {
        x - y
    } else {
        y - x
    }
}

/// Pixel `p` (raster order) of two RGB8 frames differs by at least `thr` in
/// some channel.
pub open spec fn pixel_changed(a: Seq<u8>, b: Seq<u8>, p: int, thr: u8) -> bool {
    ||| abs_diff(a[3 * p], b[3 * p]) >= thr
    ||| abs_diff(a[3 * p + 1], b[3 * p + 1]) >= thr
    ||| abs_diff(a[3 * p + 2], b[3 * p + 2]) >= thr
}

/// Number of cells across a `w` pixel row.
pub open spec fn cells_across(w: u32) -> int {
    (w as int + 7) / 8
}

/// The cell of pixel `p` in a frame `w` pixels wide, `gw` cells wide.
pub open spec fn cell_of(w: int, gw: int, p: int) -> int {
    ((p / w) / 8) * gw + (p % w) / 8
}

/// The changed pixels among the first `k` (raster order) that fall in cell
/// `c`, as `(x, y)`, in raster order.
pub open spec fn cell_pixels(
    a: Seq<u8>,
    b: Seq<u8>,
    w: int,
    gw: int,
    thr: u8,
    c: int,
    k: nat,
) -> Seq<(u32, u32)>
    decreases k,
{
    if k == 0 {
        Seq::empty()
    } else {
        let p = k - 1;
        let before = cell_pixels(a, b, w, gw, thr, c, (k - 1) as nat);
        if pixel_changed(a, b, p, thr) && cell_of(w, gw, p) == c {
            before.push(((p % w) as u32, (p / w) as u32))
        } else {
            before
        }
    }
}

/// What the bucketing needs: two RGB8 frames of `w` by `h` pixels and a cell
/// grid whose size fits in `u32`.
pub open spec fn frames_fit(a: Seq<u8>, b: Seq<u8>, w: u32, h: u32) -> bool {
    &&& a.len() == 3 * w * h
    &&& b.len() == 3 * w * h
    &&& cells_across(w) * cells_across(h) <= u32::MAX
}

fn channel_changed(x: u8, y: u8, thr: u8) -> (r: bool)
    ensures
        r == (abs_diff(x, y) >= thr),
{
    let d = if x >= y {
        x - y
    } else {
        y - x
    };
    d >= thr
}

fn div_ceil8(n: u32) -> (r: u32)
    ensures
        r == cells_across(n),
{
    n / 8 + if n % 8 != 0 {
        1
    } else {
        0
    }
}

proof fn lemma_pixel_coords(p: int, w: int, x: int, y: int)
    requires
        w > 0,
        0 <= x < w,
        y >= 0,
        p == y * w + x,
    ensures
        p % w == x,
        p / w == y,
{
    vstd::arithmetic::div_mod::lemma_fundamental_div_mod_converse(p, w, y, x);
}

proof fn lemma_cell_in_grid(x: int, y: int, w: int, h: int, gw: int, gh: int)
    requires
        0 <= x < w,
        0 <= y < h,
        gw == (w + 7) / 8,
        gh == (h + 7) / 8,
    ensures
        0 <= x / 8 < gw,
        0 <= y / 8 < gh,
        0 <= (y / 8) * gw + x / 8 < gw * gh,
{
    assert((y / 8) * gw + x / 8 < gw * gh) by (nonlinear_arith)
        requires
            0 <= x / 8 < gw,
            0 <= y / 8 < gh,
    ;
}

/// The changed pixels of two frames, bucketed by cell: `cells[c]` lists, in
/// raster order, every pixel of cell `c` whose channels differ by at least
/// `thr` somewhere.
#[verifier::loop_isolation(false)]
pub fn bucket_changes(a: &Vec<u8>, b: &Vec<u8>, w: u32, h: u32, thr: u8) -> (cells: Vec<
    Vec<(u32, u32)>,
>)
    requires
        frames_fit(a@, b@, w, h),
    ensures
        cells.len() == cells_across(w) * cells_across(h),
        forall|c: int|
            0 <= c < cells.len() ==> (#[trigger] cells[c])@ == cell_pixels(
                a@,
                b@,
                w as int,
                cells_across(w),
                thr,
                c,
                (w * h) as nat,
            ),
{
    let gw = div_ceil8(w);
    let gh = div_ceil8(h);
    let ncells = (gw * gh) as usize;
    let ghost wi = w as int;
    let mut cells: Vec<Vec<(u32, u32)>> = Vec::new();
    let mut c: usize = 0;
    while c < ncells
        invariant
            c <= ncells,
            cells.len() == c,
            forall|k: int| 0 <= k < c ==> (#[trigger] cells[k])@ == Seq::<(u32, u32)>::empty(),
        decreases ncells - c,
    {
        cells.push(Vec::new());
        c += 1;
    }
    if w == 0 {
        return cells;
    }
    let mut y: u32 = 0;
    while y < h
        invariant
            y <= h,
            cells.len() == ncells,
            forall|k: int|
                0 <= k < ncells ==> (#[trigger] cells[k])@ == cell_pixels(
                    a@,
                    b@,
                    wi,
                    gw as int,
                    thr,
                    k,
                    (y * w) as nat,
                ),
        decreases h - y,
    {
        let mut x: u32 = 0;
        while x < w
            invariant
                y < h,
                x <= w,
                cells.len() == ncells,
                forall|k: int|
                    0 <= k < ncells ==> (#[trigger] cells[k])@ == cell_pixels(
                        a@,
                        b@,
                        wi,
                        gw as int,
                        thr,
                        k,
                        (y * w + x) as nat,
                    ),
            decreases w - x,
        {
            let ghost p = y * w + x;
            assert(p < w * h) by (nonlinear_arith)
                requires
                    p == y * w + x,
                    x < w,
                    y < h,
            ;
            assert(3 * w * h == 3 * (w * h)) by (nonlinear_arith);
            let alen = a.len();
            assert(3 * p + 2 < alen);
            assert(y * w <= p);
            let i = ((y as usize) * (w as usize) + x as usize) * 3;
            let changed = channel_changed(a[i], b[i], thr) || channel_changed(
                a[i + 1],
                b[i + 1],
                thr,
            ) || channel_changed(a[i + 2], b[i + 2], thr);
            proof {
                lemma_pixel_coords(p, wi, x as int, y as int);
                lemma_cell_in_grid(x as int, y as int, wi, h as int, gw as int, gh as int);
                assert(i == 3 * p);
                assert(changed == pixel_changed(a@, b@, p, thr));
            }
            if changed {
                let ci = ((y / CELL) * gw + x / CELL) as usize;
                assert(ci == cell_of(wi, gw as int, p));
                cells[ci].push((x, y));
            }
            proof {
                assert forall|k: int| 0 <= k < ncells implies (#[trigger] cells[k])@
                    == cell_pixels(a@, b@, wi, gw as int, thr, k, (p + 1) as nat) by {
                    assert(cell_pixels(a@, b@, wi, gw as int, thr, k, (p + 1) as nat) == (if pixel_changed(
                        a@,
                        b@,
                        p,
                        thr,
                    ) && cell_of(wi, gw as int, p) == k {
                        cell_pixels(a@, b@, wi, gw as int, thr, k, p as nat).push(
                            ((p % wi) as u32, (p / wi) as u32),
                        )
                    } else {
                        cell_pixels(a@, b@, wi, gw as int, thr, k, p as nat)
                    }));
                }
            }
            x += 1;
        }
        assert(y * w + w == (y + 1) * w) by (nonlinear_arith);
        y += 1;
    }
    assert(y * w == w * h) by (nonlinear_arith)
        requires
            y == h,
    ;
    cells
}


// ── regions ──────────────────────────────────────────────────────────────

/// A connected region of changed cells: how many changed pixels it holds,
/// their bounding box `(x0, y0, x1, y1)` (inclusive), and its smallest cell.
#[derive(Clone, Copy, Debug, PartialEq, Eq)]
pub struct ChangeRegion {
    pub changed: usize,
    pub bounds: (u32, u32, u32, u32),
    pub seed: u32,
}

/// How many pixels the cells of `comp` list.
pub open spec fn region_count(cells: Seq<Vec<(u32, u32)>>, comp: Seq<u32>) -> nat
    decreases comp.len(),
{
    if comp.len() == 0 {
        0
    } else {
        region_count(cells, comp.drop_last()) + cells[comp.last() as int]@.len()
    }
}

pub open spec fn within(b: (u32, u32, u32, u32), p: (u32, u32)) -> bool {
    b.0 <= p.0 <= b.2 && b.1 <= p.1 <= b.3
}

/// Pixel `j` of the `i`-th cell of `comp`.
pub open spec fn region_pixel(cells: Seq<Vec<(u32, u32)>>, comp: Seq<u32>, i: int, j: int) -> (
    u32,
    u32,
) {
    cells[comp[i] as int]@[j]
}

pub open spec fn is_region_pixel(cells: Seq<Vec<(u32, u32)>>, comp: Seq<u32>, i: int, j: int) -> bool {
    0 <= i < comp.len() && 0 <= j < cells[comp[i] as int]@.len()
}

/// `b` is the bounding box of the pixels listed by the cells of `comp`:
/// it holds them all, and each of its sides touches one of them.
pub open spec fn is_bbox(cells: Seq<Vec<(u32, u32)>>, comp: Seq<u32>, b: (u32, u32, u32, u32)) -> bool {
    &&& forall|i: int, j: int|
        is_region_pixel(cells, comp, i, j) ==> within(b, #[trigger] region_pixel(cells, comp, i, j))
    &&& exists|i: int, j: int|
        is_region_pixel(cells, comp, i, j) && (#[trigger] region_pixel(cells, comp, i, j)).0 == b.0
    &&& exists|i: int, j: int|
        is_region_pixel(cells, comp, i, j) && (#[trigger] region_pixel(cells, comp, i, j)).1 == b.1
    &&& exists|i: int, j: int|
        is_region_pixel(cells, comp, i, j) && (#[trigger] region_pixel(cells, comp, i, j)).0 == b.2
    &&& exists|i: int, j: int|
        is_region_pixel(cells, comp, i, j) && (#[trigger] region_pixel(cells, comp, i, j)).1 == b.3
}

/// `r` measures the region made of the cells `comp`.
#[verifier::opaque]
pub open spec fn region_of(r: ChangeRegion, cells: Seq<Vec<(u32, u32)>>, comp: Seq<u32>) -> bool {
    &&& r.changed == region_count(cells, comp)
    &&& is_bbox(cells, comp, r.bounds)
    &&& r.seed == comp[0]
}

proof fn lemma_region_count_prefix(cells: Seq<Vec<(u32, u32)>>, comp: Seq<u32>, i: int)
    requires
        0 <= i <= comp.len(),
    ensures
        region_count(cells, comp.take(i)) <= region_count(cells, comp),
    decreases comp.len(),
{
    if i < comp.len() {
        assert(comp.drop_last().take(i) =~= comp.take(i));
        lemma_region_count_prefix(cells, comp.drop_last(), i);
    } else {
        assert(comp.take(i) =~= comp);
    }
}

/// Counts the changed pixels of a region and finds their bounding box.
#[verifier::loop_isolation(false)]
pub fn measure_region(cells: &Vec<Vec<(u32, u32)>>, comp: &Vec<u32>) -> (r: ChangeRegion)
    requires
        comp.len() > 0,
        forall|i: int| 0 <= i < comp.len() ==> #[trigger] comp[i] < cells.len(),
        forall|i: int| 0 <= i < comp.len() ==> cells[#[trigger] comp[i] as int]@.len() > 0,
        region_count(cells@, comp@) <= usize::MAX,
    ensures
        region_of(r, cells@, comp@),
{
    let ghost cs = cells@;
    let ghost cp = comp@;
    let first = cells[comp[0] as usize][0];
    let mut x0 = first.0;
    let mut y0 = first.1;
    let mut x1 = first.0;
    let mut y1 = first.1;
    let ghost mut w0: (int, int) = (0, 0);
    let ghost mut w1: (int, int) = (0, 0);
    let ghost mut w2: (int, int) = (0, 0);
    let ghost mut w3: (int, int) = (0, 0);
    assert(region_pixel(cs, cp, 0, 0) == first);
    let mut count: usize = 0;
    let n = comp.len();
    let mut i: usize = 0;
    while i < n
        invariant
            i <= n,
            count == region_count(cs, cp.take(i as int)),
            forall|i2: int, j2: int|
                is_region_pixel(cs, cp, i2, j2) && i2 < i ==> within(
                    (x0, y0, x1, y1),
                    #[trigger] region_pixel(cs, cp, i2, j2),
                ),
            within((x0, y0, x1, y1), region_pixel(cs, cp, 0, 0)),
            is_region_pixel(cs, cp, w0.0, w0.1) && region_pixel(cs, cp, w0.0, w0.1).0 == x0,
            is_region_pixel(cs, cp, w1.0, w1.1) && region_pixel(cs, cp, w1.0, w1.1).1 == y0,
            is_region_pixel(cs, cp, w2.0, w2.1) && region_pixel(cs, cp, w2.0, w2.1).0 == x1,
            is_region_pixel(cs, cp, w3.0, w3.1) && region_pixel(cs, cp, w3.0, w3.1).1 == y1,
        decreases n - i,
    {
        let cell = &cells[comp[i] as usize];
        let m = cell.len();
        proof {
            lemma_region_count_prefix(cs, cp, i + 1);
            assert(cp.take(i + 1).drop_last() =~= cp.take(i as int));
            assert(region_count(cs, cp.take(i + 1)) == count + m);
        }
        let mut j: usize = 0;
        while j < m
            invariant
                i < n,
                j <= m,
                m == cs[cp[i as int] as int]@.len(),
                count == region_count(cs, cp.take(i as int)) + j,
                region_count(cs, cp.take(i as int)) + m <= usize::MAX,
                forall|i2: int, j2: int|
                    is_region_pixel(cs, cp, i2, j2) && (i2 < i || (i2 == i && j2 < j)) ==> within(
                        (x0, y0, x1, y1),
                        #[trigger] region_pixel(cs, cp, i2, j2),
                    ),
                within((x0, y0, x1, y1), region_pixel(cs, cp, 0, 0)),
                is_region_pixel(cs, cp, w0.0, w0.1) && region_pixel(cs, cp, w0.0, w0.1).0 == x0,
                is_region_pixel(cs, cp, w1.0, w1.1) && region_pixel(cs, cp, w1.0, w1.1).1 == y0,
                is_region_pixel(cs, cp, w2.0, w2.1) && region_pixel(cs, cp, w2.0, w2.1).0 == x1,
                is_region_pixel(cs, cp, w3.0, w3.1) && region_pixel(cs, cp, w3.0, w3.1).1 == y1,
            decreases m - j,
        {
            let p = cell[j];
            assert(p == region_pixel(cs, cp, i as int, j as int));
            count += 1;
            if p.0 < x0 {
                x0 = p.0;
                proof {
                    w0 = (i as int, j as int);
                }
            }
            if p.1 < y0 {
                y0 = p.1;
                proof {
                    w1 = (i as int, j as int);
                }
            }
            if p.0 > x1 {
                x1 = p.0;
                proof {
                    w2 = (i as int, j as int);
                }
            }
            if p.1 > y1 {
                y1 = p.1;
                proof {
                    w3 = (i as int, j as int);
                }
            }
            j += 1;
        }
        i += 1;
    }
    assert(cp.take(n as int) =~= cp);
    let r = ChangeRegion { changed: count, bounds: (x0, y0, x1, y1), seed: comp[0] };
    reveal(region_of);
    assert(is_bbox(cs, cp, r.bounds)) by {
        assert(region_pixel(cs, cp, w0.0, w0.1).0 == r.bounds.0);
        assert(region_pixel(cs, cp, w1.0, w1.1).1 == r.bounds.1);
        assert(region_pixel(cs, cp, w2.0, w2.1).0 == r.bounds.2);
        assert(region_pixel(cs, cp, w3.0, w3.1).1 == r.bounds.3);
    }
    r
}


// ── ranking ──────────────────────────────────────────────────────────────

/// Larger regions first; among equal sizes, the one with the smaller seed.
pub open spec fn region_before(r: ChangeRegion, s: ChangeRegion) -> bool {
    r.changed > s.changed || (r.changed == s.changed && r.seed < s.seed)
}

fn goes_before(r: &ChangeRegion, s: &ChangeRegion) -> (b: bool)
    ensures
        b == region_before(*r, *s),
{
    r.changed > s.changed || (r.changed == s.changed && r.seed < s.seed)
}

/// Orders regions, given in increasing seed order, largest first; a stable
/// sort by size, since equal sizes keep their seed order.
pub fn rank_regions(found: &Vec<ChangeRegion>) -> (out: Vec<ChangeRegion>)
    requires
        forall|i: int, j: int| 0 <= i < j < found.len() ==> (#[trigger] found[i]).seed < (#[trigger] found[j]).seed,
    ensures
        out.len() == found.len(),
        forall|e: ChangeRegion| out@.contains(e) <==> found@.contains(e),
        forall|i: int, j: int| 0 <= i < j < out.len() ==> region_before(#[trigger] out[i], #[trigger] out[j]),
{
    let mut out: Vec<ChangeRegion> = Vec::new();
    let n = found.len();
    let mut i: usize = 0;
    while i < n
        invariant
            n == found.len(),
            i <= n,
            out.len() == i,
            forall|i1: int, j1: int| 0 <= i1 < j1 < found.len() ==> (#[trigger] found[i1]).seed < (#[trigger] found[j1]).seed,
            forall|e: ChangeRegion| out@.contains(e) <==> found@.take(i as int).contains(e),
            forall|i1: int, j1: int| 0 <= i1 < j1 < out.len() ==> region_before(#[trigger] out[i1], #[trigger] out[j1]),
        decreases n - i,
    {
        let x = found[i];
        let mut p: usize = 0;
        while p < out.len() && !goes_before(&x, &out[p])
            invariant
                p <= out.len(),
                forall|q: int| 0 <= q < p ==> !region_before(x, #[trigger] out[q]),
            decreases out.len() - p,
        {
            p += 1;
        }
        let ghost old_out = out@;
        proof {
            // every region already placed came earlier, so has a smaller seed
            assert forall|q: int| 0 <= q < old_out.len() implies (#[trigger] old_out[q]).seed < x.seed by {
                assert(old_out.contains(old_out[q]));
                let w = choose|w: int| 0 <= w < i && found@.take(i as int)[w] == old_out[q];
                assert(found[w] == old_out[q]);
            }
            assert forall|q: int| 0 <= q < p implies region_before(#[trigger] old_out[q], x) by {
                assert(old_out[q].seed < x.seed);
            }
            if p < old_out.len() {
                assert(region_before(x, old_out[p as int]));
            }
            old_out.insert_ensures(p as int, x);
        }
        out.insert(p, x);
        proof {
            let ins = out@;
            assert forall|i1: int, j1: int| 0 <= i1 < j1 < ins.len() implies region_before(#[trigger] ins[i1], #[trigger] ins[j1]) by {
                if j1 < p {
                    assert(ins[i1] == old_out[i1] && ins[j1] == old_out[j1]);
                } else if j1 == p {
                    assert(ins[i1] == old_out[i1]);
                } else if i1 < p {
                    assert(ins[i1] == old_out[i1] && ins[j1] == old_out[j1 - 1]);
                    assert(region_before(old_out[i1], x));
                    assert(region_before(x, old_out[p as int]));
                } else if i1 == p {
                    assert(ins[j1] == old_out[j1 - 1]);
                    assert(region_before(x, old_out[p as int]));
                } else {
                    assert(ins[i1] == old_out[i1 - 1] && ins[j1] == old_out[j1 - 1]);
                }
            }
            assert(found@.take(i + 1) =~= found@.take(i as int).push(x));
            assert forall|e: ChangeRegion| ins.contains(e) <==> found@.take(i + 1).contains(e) by {
                if ins.contains(e) {
                    let w = choose|w: int| 0 <= w < ins.len() && ins[w] == e;
                    if w < p {
                        assert(old_out[w] == e);
                    } else if w > p {
                        assert(old_out[w - 1] == e);
                    }
                    if e != x {
                        assert(old_out.contains(e));
                        let v = choose|v: int| 0 <= v < i && found@.take(i as int)[v] == e;
                        assert(found@.take(i + 1)[v] == e);
                    } else {
                        assert(found@.take(i + 1)[i as int] == e);
                    }
                }
                if found@.take(i + 1).contains(e) {
                    let v = choose|v: int| 0 <= v < i + 1 && #[trigger] found@.take(i + 1)[v] == e;
                    if v == i {
                        assert(ins[p as int] == e);
                    } else {
                        assert(found@.take(i as int)[v] == e);
                        assert(old_out.contains(e));
                        let w = choose|w: int| 0 <= w < old_out.len() && old_out[w] == e;
                        if w < p {
                            assert(ins[w] == e);
                        } else {
                            assert(ins[w + 1] == e);
                        }
                    }
                }
            }
        }
        i += 1;
    }
    assert(found@.take(n as int) =~= found@);
    out
}

// ── the whole search ─────────────────────────────────────────────────────

/// Which cells hold at least one changed pixel.
pub open spec fn occupied_of(cells: Seq<Vec<(u32, u32)>>) -> Seq<bool> {
    Seq::new(cells.len(), |c: int| cells[c]@.len() > 0)
}

/// `r` measures one of the components `comps`.
pub open spec fn measures_some(r: ChangeRegion, cells: Seq<Vec<(u32, u32)>>, comps: Seq<Vec<u32>>) -> bool {
    exists|k: int| 0 <= k < comps.len() && region_of(r, cells, (#[trigger] comps[k])@)
}

/// `regions` measures, largest first, every component of the changed cells
/// that holds at least `MIN_CHANGED` changed pixels, and nothing else.
pub open spec fn ranked_regions(
    cells: Seq<Vec<(u32, u32)>>,
    comps: Seq<Vec<u32>>,
    regions: Seq<ChangeRegion>,
) -> bool {
    &&& forall|i: int|
        0 <= i < regions.len() ==> measures_some(#[trigger] regions[i], cells, comps)
            && regions[i].changed >= MIN_CHANGED
    &&& forall|k: int|
        0 <= k < comps.len() && region_count(cells, (#[trigger] comps[k])@) >= MIN_CHANGED
            ==> exists|i: int| 0 <= i < regions.len() && region_of(regions[i], cells, comps[k]@)
    &&& forall|i: int, j: int|
        0 <= i < j < regions.len() ==> region_before(#[trigger] regions[i], #[trigger] regions[j])
}

fn occupied(cells: &Vec<Vec<(u32, u32)>>) -> (occ: Vec<bool>)
    ensures
        occ@ == occupied_of(cells@),
{
    let mut occ: Vec<bool> = Vec::new();
    let n = cells.len();
    let mut c: usize = 0;
    while c < n
        invariant
            n == cells.len(),
            c <= n,
            occ@.len() == c,
            forall|k: int| 0 <= k < c ==> occ@[k] == (cells@[k]@.len() > 0),
        decreases n - c,
    {
        occ.push(cells[c].len() > 0);
        c += 1;
    }
    assert(occ@ =~= occupied_of(cells@));
    occ
}

/// The number of changed pixels the cells of `comp` hold, counted on the
/// specification of the buckets.
spec fn bucket_count(a: Seq<u8>, b: Seq<u8>, w: int, gw: int, thr: u8, comp: Seq<u32>, k: nat) -> nat
    decreases comp.len(),
{
    if comp.len() == 0 {
        0
    } else {
        bucket_count(a, b, w, gw, thr, comp.drop_last(), k) + cell_pixels(a, b, w, gw, thr, comp.last() as int, k).len()
    }
}

proof fn lemma_bucket_count_step(a: Seq<u8>, b: Seq<u8>, w: int, gw: int, thr: u8, comp: Seq<u32>, k: nat)
    requires
        comp.no_duplicates(),
    ensures
        bucket_count(a, b, w, gw, thr, comp, k + 1) == bucket_count(a, b, w, gw, thr, comp, k) + if pixel_changed(a, b, k as int, thr)
            && comp.contains(cell_of(w, gw, k as int) as u32) && cell_of(w, gw, k as int) >= 0 && cell_of(w, gw, k as int) <= u32::MAX {
            1nat
        } else {
            0nat
        },
    decreases comp.len(),
{
    if comp.len() > 0 {
        let d = comp.drop_last();
        assert(d.no_duplicates()) by {
            assert forall|i: int, j: int| 0 <= i < j < d.len() implies d[i] != d[j] by {
                assert(d[i] == comp[i] && d[j] == comp[j]);
            }
        }
        lemma_bucket_count_step(a, b, w, gw, thr, d, k);
        let x = comp.last();
        let ck = cell_of(w, gw, k as int);
        if x as int == ck {
            assert(!d.contains(x)) by {
                if d.contains(x) {
                    let v = choose|v: int| 0 <= v < d.len() && d[v] == x;
                    assert(comp[v] == comp[comp.len() - 1]);
                }
            }
            assert(comp.contains(ck as u32)) by {
                assert(comp[comp.len() - 1] == x);
            }
        } else if 0 <= ck <= u32::MAX {
            assert(comp.contains(ck as u32) == d.contains(ck as u32)) by {
                if comp.contains(ck as u32) {
                    let v = choose|v: int| 0 <= v < comp.len() && comp[v] == ck as u32;
                    if v == comp.len() - 1 {
                        assert(x as int == ck);
                    }
                    assert(d[v] == ck as u32);
                }
                if d.contains(ck as u32) {
                    let v = choose|v: int| 0 <= v < d.len() && d[v] == ck as u32;
                    assert(comp[v] == ck as u32);
                }
            }
        }
    }
}

proof fn lemma_bucket_count_bound(a: Seq<u8>, b: Seq<u8>, w: int, gw: int, thr: u8, comp: Seq<u32>, k: nat)
    requires
        comp.no_duplicates(),
    ensures
        bucket_count(a, b, w, gw, thr, comp, k) <= k,
    decreases k,
{
    if k == 0 {
        lemma_bucket_count_zero(a, b, w, gw, thr, comp);
    } else {
        lemma_bucket_count_bound(a, b, w, gw, thr, comp, (k - 1) as nat);
        lemma_bucket_count_step(a, b, w, gw, thr, comp, (k - 1) as nat);
    }
}

proof fn lemma_bucket_count_zero(a: Seq<u8>, b: Seq<u8>, w: int, gw: int, thr: u8, comp: Seq<u32>)
    ensures
        bucket_count(a, b, w, gw, thr, comp, 0) == 0,
    decreases comp.len(),
{
    if comp.len() > 0 {
        lemma_bucket_count_zero(a, b, w, gw, thr, comp.drop_last());
    }
}

proof fn lemma_region_count_buckets(
    cells: Seq<Vec<(u32, u32)>>,
    a: Seq<u8>,
    b: Seq<u8>,
    w: int,
    gw: int,
    thr: u8,
    comp: Seq<u32>,
    k: nat,
)
    requires
        forall|i: int| 0 <= i < comp.len() ==> #[trigger] comp[i] < cells.len(),
        forall|c: int| 0 <= c < cells.len() ==> (#[trigger] cells[c])@ == cell_pixels(a, b, w, gw, thr, c, k),
    ensures
        region_count(cells, comp) == bucket_count(a, b, w, gw, thr, comp, k),
    decreases comp.len(),
{
    if comp.len() > 0 {
        let d = comp.drop_last();
        assert forall|i: int| 0 <= i < d.len() implies #[trigger] d[i] < cells.len() by {
            assert(d[i] == comp[i]);
        }
        lemma_region_count_buckets(cells, a, b, w, gw, thr, d, k);
        assert(comp.last() == comp[comp.len() - 1]);
    }
}

/// Measures each component in order and keeps those with at least
/// `MIN_CHANGED` changed pixels.
fn measure_regions(cells: &Vec<Vec<(u32, u32)>>, comps: &Vec<Vec<u32>>) -> (found: Vec<ChangeRegion>)
    requires
        forall|k: int| 0 <= k < comps.len() ==> (#[trigger] comps[k])@.len() > 0,
        forall|k: int, i: int|
            0 <= k < comps.len() && 0 <= i < comps[k]@.len() ==> #[trigger] comps[k]@[i] < cells.len()
                && cells[comps[k]@[i] as int]@.len() > 0,
        forall|k: int| 0 <= k < comps.len() ==> region_count(cells@, (#[trigger] comps[k])@) <= usize::MAX,
        forall|k1: int, k2: int|
            0 <= k1 < k2 < comps.len() ==> (#[trigger] comps[k1])@[0] < (#[trigger] comps[k2])@[0],
    ensures
        forall|i: int|
            0 <= i < found@.len() ==> measures_some(#[trigger] found@[i], cells@, comps@) && found@[i].changed >= MIN_CHANGED,
        forall|kk: int|
            0 <= kk < comps.len() && region_count(cells@, (#[trigger] comps@[kk])@) >= MIN_CHANGED
                ==> exists|i: int| 0 <= i < found.len() && region_of(found@[i], cells@, comps@[kk]@),
        forall|i: int, j: int| 0 <= i < j < found.len() ==> (#[trigger] found@[i]).seed < (#[trigger] found@[j]).seed,
{
    let ghost cs = cells@;
    let ghost cm = comps@;
    let mut found: Vec<ChangeRegion> = Vec::new();
    let nc = comps.len();
    let mut k: usize = 0;
    while k < nc
        invariant
            nc == cm.len(),
            cm == comps@,
            cs == cells@,
            k <= nc,
            forall|kk: int| 0 <= kk < comps.len() ==> (#[trigger] comps[kk])@.len() > 0,
            forall|kk: int, i: int|
                0 <= kk < comps.len() && 0 <= i < comps[kk]@.len() ==> #[trigger] comps[kk]@[i] < cells.len()
                    && cells[comps[kk]@[i] as int]@.len() > 0,
            forall|kk: int| 0 <= kk < comps.len() ==> region_count(cells@, (#[trigger] comps[kk])@) <= usize::MAX,
            forall|k1: int, k2: int|
                0 <= k1 < k2 < comps.len() ==> (#[trigger] comps[k1])@[0] < (#[trigger] comps[k2])@[0],
            forall|i: int|
                0 <= i < found.len() ==> exists|kk: int|
                    0 <= kk < k && region_of(#[trigger] found@[i], cs, cm[kk]@) && found@[i].changed >= MIN_CHANGED,
            forall|kk: int|
                0 <= kk < k && region_count(cs, (#[trigger] cm[kk])@) >= MIN_CHANGED
                    ==> exists|i: int| 0 <= i < found.len() && region_of(found@[i], cs, cm[kk]@),
            forall|i: int, j: int| 0 <= i < j < found.len() ==> (#[trigger] found@[i]).seed < (#[trigger] found@[j]).seed,
            forall|i: int| 0 <= i < found.len() ==> exists|kk: int| 0 <= kk < k && (#[trigger] found@[i]).seed == cm[kk]@[0],
        decreases nc - k,
    {
        let comp = &comps[k];
        proof {
            assert forall|i: int| 0 <= i < comp.len() implies #[trigger] comp[i] < cells.len() by {
                assert(cm[k as int]@[i] < cells.len());
            }
            assert forall|i: int| 0 <= i < comp.len() implies cells[#[trigger] comp[i] as int]@.len() > 0 by {
                assert(cm[k as int]@[i] < cells.len());
            }
        }
        let r = measure_region(cells, comp);
        assert(r.seed == cm[k as int]@[0] && r.changed == region_count(cs, cm[k as int]@)) by {
            reveal(region_of);
        }
        let ghost before = found@;
        if r.changed >= MIN_CHANGED {
            found.push(r);
            proof {
                assert forall|i: int, j: int| 0 <= i < j < found.len() implies (#[trigger] found@[i]).seed < (#[trigger] found@[j]).seed by {
                    if j == before.len() {
                        assert(found@[i] == before[i]);
                        let kk = choose|kk: int| 0 <= kk < k && before[i].seed == cm[kk]@[0];
                        assert(cm[kk]@[0] < cm[k as int]@[0]);
                    } else {
                        assert(found@[i] == before[i] && found@[j] == before[j]);
                    }
                }
            }
        }
        proof {
            assert forall|i: int| 0 <= i < found.len() implies exists|kk: int|
                0 <= kk < k + 1 && region_of(#[trigger] found@[i], cs, cm[kk]@) && found@[i].changed >= MIN_CHANGED by {
                if i < before.len() {
                    assert(found@[i] == before[i]);
                    let kk = choose|kk: int| 0 <= kk < k && region_of(before[i], cs, cm[kk]@) && before[i].changed >= MIN_CHANGED;
                } else {
                    assert(found@[i] == r);
                }
            }
            assert forall|kk: int|
                0 <= kk < k + 1 && region_count(cs, (#[trigger] cm[kk])@) >= MIN_CHANGED
                    implies exists|i: int| 0 <= i < found.len() && region_of(found@[i], cs, cm[kk]@) by {
                if kk < k {
                    let i = choose|i: int| 0 <= i < before.len() && region_of(before[i], cs, cm[kk]@);
                    assert(found@[i] == before[i]);
                } else {
                    assert(found@[before.len() as int] == r);
                }
            }
            assert forall|i: int| 0 <= i < found.len() implies exists|kk: int| 0 <= kk < k + 1 && (#[trigger] found@[i]).seed == cm[kk]@[0] by {
                if i < before.len() {
                    assert(found@[i] == before[i]);
                    let kk = choose|kk: int| 0 <= kk < k && before[i].seed == cm[kk]@[0];
                } else {
                    assert(found@[i] == r);
                }
            }
        }
        k += 1;
    }
    assert forall|i: int| 0 <= i < found@.len() implies measures_some(#[trigger] found@[i], cells@, comps@) && found@[i].changed >= MIN_CHANGED by {
        let kk = choose|kk: int| 0 <= kk < k && region_of(found@[i], cs, cm[kk]@) && found@[i].changed >= MIN_CHANGED;
        assert(0 <= kk < comps@.len() && region_of(found@[i], cells@, comps@[kk]@));
    }
    found
}

/// `regions` are the change regions of frames `a` and `b` (`w` by `h`, RGB8)
/// at threshold `thr`: the changed pixels bucketed into cells, the
/// components of the occupied cells, and every component holding at least
/// `MIN_CHANGED` changed pixels measured, largest first.
pub open spec fn regions_of_frames(a: Seq<u8>, b: Seq<u8>, w: u32, h: u32, thr: u8, regions: Seq<ChangeRegion>) -> bool {
    exists|cells: Seq<Vec<(u32, u32)>>, comps: Seq<Vec<u32>>|
        {
            &&& cells.len() == cells_across(w) * cells_across(h)
            &&& forall|c: int|
                0 <= c < cells.len() ==> (#[trigger] cells[c])@ == cell_pixels(
                    a,
                    b,
                    w as int,
                    cells_across(w),
                    thr,
                    c,
                    (w * h) as nat,
                )
            &&& components_of(occupied_of(cells), cells_across(w), comps)
            &&& ranked_regions(cells, comps, regions)
        }
}

/// Where two RGB8 frames changed, as connected regions of changed cells,
/// largest first.
///
/// A pixel changed when some channel differs by at least `thr`; changed
/// pixels are bucketed into 8 by 8 cells, cells are joined through their
/// eight neighbours, and every component with at least `MIN_CHANGED` changed
/// pixels is measured. Equal sizes keep the order of their smallest cells.
pub fn change_regions(a: &Vec<u8>, b: &Vec<u8>, w: u32, h: u32, thr: u8) -> (regions: Vec<ChangeRegion>)
    requires
        frames_fit(a@, b@, w, h),
    ensures
        regions_of_frames(a@, b@, w, h, thr, regions@),
{
    let cells = bucket_changes(a, b, w, h, thr);
    let gw = div_ceil8(w);
    let gh = div_ceil8(h);
    let occ = occupied(&cells);
    let comps = cell_components(&occ, gw, gh);
    let ghost cs = cells@;
    let ghost cm = comps@;
    let alen = a.len();
    assert(3 * w * h == 3 * (w * h)) by (nonlinear_arith);
    proof {
        assert forall|k: int, i: int|
            0 <= k < comps.len() && 0 <= i < comps[k]@.len() implies #[trigger] comps[k]@[i] < cells.len()
                && cells[comps[k]@[i] as int]@.len() > 0 by {
            assert(occ@[comps[k]@[i] as int]);
        }
        assert forall|k: int| 0 <= k < comps.len() implies region_count(cells@, (#[trigger] comps[k])@) <= usize::MAX by {
            let comp = comps[k]@;
            assert forall|i: int| 0 <= i < comp.len() implies #[trigger] comp[i] < cs.len() by {
                assert(comps[k]@[i] < cells.len());
            }
            lemma_region_count_buckets(cs, a@, b@, w as int, gw as int, thr, comp, (w * h) as nat);
            lemma_bucket_count_bound(a@, b@, w as int, gw as int, thr, comp, (w * h) as nat);
        }
    }
    let found = measure_regions(&cells, &comps);
    let regions = rank_regions(&found);
    proof {
        assert forall|i: int| 0 <= i < regions@.len() implies measures_some(#[trigger] regions@[i], cs, cm)
            && regions@[i].changed >= MIN_CHANGED by {
            assert(regions@.contains(regions@[i]));
            assert(found@.contains(regions@[i]));
            let v = choose|v: int| 0 <= v < found@.len() && found@[v] == regions@[i];
            assert(measures_some(found@[v], cs, cm));
        }
        assert forall|kk: int|
            0 <= kk < cm.len() && region_count(cs, (#[trigger] cm[kk])@) >= MIN_CHANGED
                implies exists|i: int| 0 <= i < regions@.len() && region_of(regions@[i], cs, cm[kk]@) by {
            let i = choose|i: int| 0 <= i < found.len() && region_of(found@[i], cs, cm[kk]@);
            assert(found@.contains(found@[i]));
            assert(regions@.contains(found@[i]));
            let v = choose|v: int| 0 <= v < regions@.len() && regions@[v] == found@[i];
            assert(region_of(regions@[v], cs, cm[kk]@));
        }
        assert(ranked_regions(cs, cm, regions@));
    }
    regions
}

// ── which primitives move with which region ──────────────────────────────

/// Primitive `i` moves with region `k`: `k` contains its centre and no
/// earlier, larger region does.
pub open spec fn first_region(inside: Seq<Seq<bool>>, i: int, k: int) -> bool {
    &&& inside[k][i]
    &&& forall|j: int| 0 <= j < k ==> !#[trigger] inside[j][i]
}

/// `m` lists, in increasing order, exactly the primitives `i < n` whose
/// first region is `k`.
pub open spec fn members_of(inside: Seq<Seq<bool>>, n: nat, k: int, m: Seq<usize>) -> bool {
    &&& forall|a: int, b: int| 0 <= a < b < m.len() ==> m[a] < m[b]
    &&& forall|a: int| 0 <= a < m.len() ==> m[a] < n && first_region(inside, #[trigger] m[a] as int, k)
    &&& forall|i: int| 0 <= i < n && first_region(inside, i, k) ==> m.contains(i as usize)
}

/// Gives every primitive to the first region whose rectangle holds its
/// centre. `inside[k][i]` says whether region `k` (largest first) holds
/// primitive `i`; the result lists, per region, the primitives that move
/// with it, in set order. A primitive moves with one region at most.
pub fn assign_regions(inside: &Vec<Vec<bool>>, n: usize) -> (members: Vec<Vec<usize>>)
    requires
        forall|k: int| 0 <= k < inside.len() ==> (#[trigger] inside[k]).len() == n,
    ensures
        members.len() == inside.len(),
        forall|k: int| 0 <= k < inside.len() ==> members_of(inside.deep_view(), n as nat, k, (#[trigger] members[k])@),
{
    let ghost ins = inside.deep_view();
    let mut assigned: Vec<bool> = Vec::new();
    let mut i: usize = 0;
    while i < n
        invariant
            i <= n,
            assigned.len() == i,
            forall|j: int| 0 <= j < i ==> !assigned[j],
        decreases n - i,
    {
        assigned.push(false);
        i += 1;
    }
    let mut members: Vec<Vec<usize>> = Vec::new();
    let mut k: usize = 0;
    while k < inside.len()
        invariant
            ins == inside.deep_view(),
            forall|q: int| 0 <= q < inside.len() ==> (#[trigger] inside[q]).len() == n,
            k <= inside.len(),
            assigned.len() == n,
            members.len() == k,
            forall|j: int| 0 <= j < n ==> (assigned[j] <==> exists|q: int| 0 <= q < k && #[trigger] ins[q][j]),
            forall|q: int| 0 <= q < k ==> members_of(ins, n as nat, q, (#[trigger] members[q])@),
        decreases inside.len() - k,
    {
        let row = &inside[k];
        assert(row@ == ins[k as int]);
        let mut m: Vec<usize> = Vec::new();
        let mut j: usize = 0;
        while j < n
            invariant
                ins == inside.deep_view(),
                row@ == ins[k as int],
                row.len() == n,
                k < inside.len(),
                j <= n,
                assigned.len() == n,
                forall|t: int| j <= t < n ==> (assigned[t] <==> exists|q: int| 0 <= q < k && #[trigger] ins[q][t]),
                forall|t: int| 0 <= t < j ==> (assigned[t] <==> exists|q: int| 0 <= q <= k && #[trigger] ins[q][t]),
                forall|a: int, b: int| 0 <= a < b < m.len() ==> m[a] < m[b],
                forall|a: int| 0 <= a < m.len() ==> m[a] < j && first_region(ins, #[trigger] m[a] as int, k as int),
                forall|t: int| 0 <= t < j && first_region(ins, t, k as int) ==> m@.contains(t as usize),
            decreases n - j,
        {
            if !assigned[j] && row[j] {
                proof {
                    assert forall|q: int| 0 <= q < k implies !#[trigger] ins[q][j as int] by {
                        if ins[q][j as int] {
                            assert(exists|q2: int| 0 <= q2 < k && #[trigger] ins[q2][j as int]);
                        }
                    }
                }
                assigned.set(j, true);
                let ghost before = m@;
                m.push(j);
                proof {
                    assert forall|t: int| 0 <= t < j + 1 && first_region(ins, t, k as int) implies m@.contains(t as usize) by {
                        if t < j {
                            let a = choose|a: int| 0 <= a < before.len() && before[a] == t as usize;
                            assert(m@[a] == t as usize);
                        } else {
                            assert(m@[m.len() - 1] == j);
                        }
                    }
                }
            } else {
                proof {
                    if row[j as int] {
                        assert(assigned[j as int]);
                        let q = choose|q: int| 0 <= q < k && #[trigger] ins[q][j as int];
                        assert(!first_region(ins, j as int, k as int));
                    }
                    if assigned[j as int] {
                        let q = choose|q: int| 0 <= q < k && #[trigger] ins[q][j as int];
                        assert(exists|q2: int| 0 <= q2 <= k && #[trigger] ins[q2][j as int]);
                    }
                    assert forall|t: int| 0 <= t < j + 1 && first_region(ins, t, k as int) implies m@.contains(t as usize) by {
                        if t == j {
                            assert(ins[k as int][j as int]);
                        }
                    }
                }
            }
            proof {
                if !assigned[j as int] {
                    assert forall|q: int| 0 <= q <= k implies !#[trigger] ins[q][j as int] by {
                        if q < k && ins[q][j as int] {
                            assert(exists|q2: int| 0 <= q2 < k && #[trigger] ins[q2][j as int]);
                        }
                    }
                }
            }
            j += 1;
        }
        members.push(m);
        k += 1;
    }
    members
}

/// No primitive moves with two regions.
pub proof fn lemma_assignment_disjoint(inside: Seq<Seq<bool>>, n: nat, k1: int, k2: int, m1: Seq<usize>, m2: Seq<usize>, i: usize)
    requires
        0 <= k1 < k2,
        members_of(inside, n, k1, m1),
        members_of(inside, n, k2, m2),
    ensures
        !(m1.contains(i) && m2.contains(i)),
{
    if m1.contains(i) && m2.contains(i) {
        let a = choose|a: int| 0 <= a < m1.len() && m1[a] == i;
        let b = choose|b: int| 0 <= b < m2.len() && m2[b] == i;
        assert(first_region(inside, m1[a] as int, k1));
        assert(first_region(inside, m2[b] as int, k2));
        assert(!inside[k1][i as int]);
    }
}

} // verus!
