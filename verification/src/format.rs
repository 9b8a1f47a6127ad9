//! The `.mathset` file: a set of math that generates an image.
//!
//! Coordinates are normalized against the long edge of the canvas, so a set
//! fitted at one resolution replays at any other. `splats` is ordered back to
//! front: alpha compositing does not commute, so it is a sequence.
//!
//! Each splat is 9 or 10 numbers: `x y sx sy theta r g b a [beta]`.
//!
//! The numbers of a set are IEEE-754 single-precision values. This library
//! holds each of them as its 32-bit pattern (what `f32::to_bits` gives), so
//! that the rules of the format can be checked and proved exactly; the
//! predicates below state what the usual float comparisons mean on those
//! patterns.
use vstd::prelude::*;

verus! {

/// The format version this library reads and writes.
pub const VERSION: u32 = 0;

/// The bit pattern of `1.0f32`, the shape exponent of a nine-number splat.
pub const F32_ONE: u32 = 0x3f80_0000;

/// Exponent field all ones: an infinity or a NaN.
pub open spec fn f32_is_finite(bits: u32) -> bool {
    (bits >> 23u32) & 0xffu32 != 0xffu32
}

pub open spec fn f32_is_nan(bits: u32) -> bool {
    (bits >> 23u32) & 0xffu32 == 0xffu32 && bits & 0x7f_ffffu32 != 0
}

/// `+0.0` or `-0.0`.
pub open spec fn f32_is_zero(bits: u32) -> bool {
    bits & 0x7fff_ffffu32 == 0
}

pub open spec fn f32_sign_set(bits: u32) -> bool {
    bits & 0x8000_0000u32 != 0
}

/// `v > 0.0`.
pub open spec fn f32_gt_zero(bits: u32) -> bool {
    !f32_is_nan(bits) && !f32_sign_set(bits) && !f32_is_zero(bits)
}

/// `v <= 0.0`; false for a NaN.
pub open spec fn f32_le_zero(bits: u32) -> bool {
    !f32_is_nan(bits) && (f32_sign_set(bits) || f32_is_zero(bits))
}

/// `a == b` as floats: never for a NaN, and the two zeros are equal.
pub open spec fn f32_eq(a: u32, b: u32) -> bool {
    !f32_is_nan(a) && !f32_is_nan(b) && (a == b || (f32_is_zero(a) && f32_is_zero(b)))
}

pub fn is_finite(bits: u32) -> (r: bool)
    ensures
        r == f32_is_finite(bits),
{
    (bits >> 23u32) & 0xffu32 != 0xffu32
}

pub fn is_nan(bits: u32) -> (r: bool)
    ensures
        r == f32_is_nan(bits),
{
    (bits >> 23u32) & 0xffu32 == 0xffu32 && bits & 0x7f_ffffu32 != 0
}

pub fn le_zero(bits: u32) -> (r: bool)
    ensures
        r == f32_le_zero(bits),
{
    !is_nan(bits) && (bits & 0x8000_0000u32 != 0 || bits & 0x7fff_ffffu32 == 0)
}

pub fn gt_zero(bits: u32) -> (r: bool)
    ensures
        r == f32_gt_zero(bits),
{
    !is_nan(bits) && bits & 0x8000_0000u32 == 0 && bits & 0x7fff_ffffu32 != 0
}

pub fn float_eq(a: u32, b: u32) -> (r: bool)
    ensures
        r == f32_eq(a, b),
{
    !is_nan(a) && !is_nan(b) && (a == b || (a & 0x7fff_ffffu32 == 0 && b & 0x7fff_ffffu32 == 0))
}

/// The colour space that a set names when its file leaves `space` out.
pub fn srgb() -> (s: String)
    ensures
        s@ == "srgb"@,
{
    String::from_str("srgb")
}

/// The one primitive this decoder speaks.
pub fn gauss2d() -> (s: String)
    ensures
        s@ == "gauss2d"@,
{
    String::from_str("gauss2d")
}

/// A complete description of an image. Every `f32` of the file is held as its
/// bit pattern.
pub struct MathSet {
    /// Format version.
    pub mathset: u32,
    /// Reference resolution: a framing hint that fixes aspect and unit.
    pub canvas: [u32; 2],
    /// Colour space of the stored colours.
    pub space: String,
    /// The canvas before any primitive is composited, sRGB, as bit patterns.
    pub bg: [u32; 3],
    /// Which primitive the rows describe.
    pub primitive: String,
    /// The primitives in composite order, each a row of bit patterns.
    pub splats: Vec<Vec<u32>>,
}

/// One primitive, its numbers as bit patterns.
#[derive(Clone, Copy, Debug, PartialEq, Eq)]
pub struct Splat {
    pub x: u32,
    pub y: u32,
    pub sx: u32,
    pub sy: u32,
    pub theta: u32,
    pub rgb: [u32; 3],
    pub a: u32,
    pub beta: u32,
}

/// Why a set is refused.
#[derive(Clone, Copy, Debug, PartialEq, Eq)]
pub enum FormatError {
    /// A format version other than `VERSION`.
    Version(u32),
    /// A primitive other than `gauss2d`.
    Primitive,
    /// A colour space other than `srgb`.
    Space,
    /// A canvas with a zero side.
    ZeroCanvas,
    /// A row whose length is neither 9 nor 10.
    SplatLength { index: usize, len: usize },
    /// A row holding an infinity or a NaN.
    NonFinite { index: usize },
    /// A row whose `sx` or `sy` is not positive.
    NonPositiveExtent { index: usize },
    /// A row whose `beta` is present and not positive.
    NonPositiveBeta { index: usize },
}

pub open spec fn all_finite(s: Seq<u32>) -> bool {
    forall|j: int| 0 <= j < s.len() ==> f32_is_finite(#[trigger] s[j])
}

/// The rules a row must meet: 9 or 10 numbers, all finite, positive extents,
/// and a positive shape exponent when one is given.
pub open spec fn splat_ok(s: Seq<u32>) -> bool {
    &&& s.len() == 9 || s.len() == 10
    &&& all_finite(s)
    &&& f32_gt_zero(s[2])
    &&& f32_gt_zero(s[3])
    &&& s.len() == 10 ==> f32_gt_zero(s[9])
}

/// What a conforming decoder accepts, and nothing else.
pub open spec fn conforms(ms: MathSet) -> bool {
    &&& ms.mathset == VERSION
    &&& ms.primitive@ == "gauss2d"@
    &&& ms.space@ == "srgb"@
    &&& ms.canvas[0] != 0
    &&& ms.canvas[1] != 0
    &&& forall|i: int| 0 <= i < ms.splats.len() ==> splat_ok(#[trigger] ms.splats[i]@)
}

/// The first rule that row `i` breaks, in the order the decoder checks them.
pub open spec fn splat_error(i: nat, s: Seq<u32>) -> Option<FormatError> {
    if !(s.len() == 9 || s.len() == 10) {
        Some(FormatError::SplatLength { index: i as usize, len: s.len() as usize })
    } else if !all_finite(s) {
        Some(FormatError::NonFinite { index: i as usize })
    } else if f32_le_zero(s[2]) || f32_le_zero(s[3]) {
        Some(FormatError::NonPositiveExtent { index: i as usize })
    } else if s.len() == 10 && f32_le_zero(s[9]) {
        Some(FormatError::NonPositiveBeta { index: i as usize })
    } else {
        None
    }
}

/// The error of the first bad row at or after `i`.
pub open spec fn rows_error(splats: Seq<Vec<u32>>, i: nat) -> Option<FormatError>
    decreases splats.len() - i,
{
    if i >= splats.len() {
        None
    } else {
        match splat_error(i, splats[i as int]@) {
            Some(e) => Some(e),
            None => rows_error(splats, i + 1),
        }
    }
}

/// The verdict on a set: the first rule broken, checking the header before the rows.
pub open spec fn spec_validate(ms: MathSet) -> Result<(), FormatError> {
    if ms.mathset != VERSION {
        Err(FormatError::Version(ms.mathset))
    } else if ms.primitive@ != "gauss2d"@ {
        Err(FormatError::Primitive)
    } else if ms.space@ != "srgb"@ {
        Err(FormatError::Space)
    } else if ms.canvas[0] == 0 || ms.canvas[1] == 0 {
        Err(FormatError::ZeroCanvas)
    } else {
        match rows_error(ms.splats@, 0) {
            Some(e) => Err(e),
            None => Ok(()),
        }
    }
}

proof fn lemma_row_rules(i: nat, s: Seq<u32>)
    ensures
        splat_error(i, s) is None <==> splat_ok(s),
{
}

proof fn lemma_rows_error_none(splats: Seq<Vec<u32>>, i: nat)
    ensures
        rows_error(splats, i) is None <==> forall|k: int|
            i <= k < splats.len() ==> splat_ok(#[trigger] splats[k]@),
    decreases splats.len() - i,
{
    if i < splats.len() {
        lemma_rows_error_none(splats, i + 1);
        lemma_row_rules(i, splats[i as int]@);
        if rows_error(splats, i) is None {
            assert forall|k: int| i <= k < splats.len() implies splat_ok(#[trigger] splats[k]@) by {
                if k == i {
                } else {
                }
            }
        }
    }
}

/// The first rule that row `i` breaks.
fn check_row(i: usize, s: &Vec<u32>) -> (r: Option<FormatError>)
    ensures
        r == splat_error(i as nat, s@),
{
    let len = s.len();
    if len != 9 && len != 10 {
        return Some(FormatError::SplatLength { index: i, len });
    }
    let mut j: usize = 0;
    while j < len
        invariant
            len == s@.len(),
            len == 9 || len == 10,
            j <= len,
            forall|jj: int| 0 <= jj < j ==> f32_is_finite(#[trigger] s@[jj]),
        decreases len - j,
    {
        if !is_finite(s[j]) {
            assert(!f32_is_finite(s@[j as int]));
            assert(!all_finite(s@));
            return Some(FormatError::NonFinite { index: i });
        }
        j += 1;
    }
    if le_zero(s[2]) || le_zero(s[3]) {
        return Some(FormatError::NonPositiveExtent { index: i });
    }
    if len == 10 && le_zero(s[9]) {
        return Some(FormatError::NonPositiveBeta { index: i });
    }
    None
}

/// The numbers of row `s` as a primitive; a missing `beta` is 1.
pub open spec fn splat_of(p: Splat, s: Seq<u32>) -> bool {
    &&& p.x == s[0]
    &&& p.y == s[1]
    &&& p.sx == s[2]
    &&& p.sy == s[3]
    &&& p.theta == s[4]
    &&& p.rgb@ == seq![s[5], s[6], s[7]]
    &&& p.a == s[8]
    &&& p.beta == if s.len() == 10 {
        s[9]
    } else {
        F32_ONE
    }
}

/// Every prefix of a set is itself a set: when all rows of a set conform, so
/// do the rows of every prefix, so drawing the first `k` primitives draws a
/// complete, valid description.
pub proof fn lemma_prefix_conforms(rows: Seq<Vec<u32>>, k: int)
    requires
        0 <= k <= rows.len(),
        rows_error(rows, 0) is None,
    ensures
        rows_error(rows.take(k), 0) is None,
{
    lemma_rows_error_none(rows, 0);
    lemma_rows_error_none(rows.take(k), 0);
    assert forall|i: int| 0 <= i < k implies splat_ok(#[trigger] rows.take(k)[i]@) by {
        assert(rows.take(k)[i] == rows[i]);
    }
}

impl MathSet {
    /// Checks a set against the rules of the format, header first, then the
    /// rows in order; the first rule broken is the error.
    #[verifier::loop_isolation(false)]
    pub fn validate(&self) -> (r: Result<(), FormatError>)
        ensures
            r == spec_validate(*self),
            r is Ok <==> conforms(*self),
    {
        proof {
            lemma_rows_error_none(self.splats@, 0);
        }
        if self.mathset != VERSION {
            return Err(FormatError::Version(self.mathset));
        }
        if self.primitive != gauss2d() {
            return Err(FormatError::Primitive);
        }
        if self.space != srgb() {
            return Err(FormatError::Space);
        }
        if self.canvas[0] == 0 || self.canvas[1] == 0 {
            return Err(FormatError::ZeroCanvas);
        }
        let n = self.splats.len();
        let mut i: usize = 0;
        while i < n
            invariant
                n == self.splats@.len(),
                i <= n,
                rows_error(self.splats@, 0) == rows_error(self.splats@, i as nat),
            decreases n - i,
        {
            match check_row(i, &self.splats[i]) {
                Some(e) => {
                    assert(self.splats@[i as int]@ == self.splats[i as int]@);
                    assert(rows_error(self.splats@, i as nat) == Some(e));
                    return Err(e);
                },
                None => {},
            }
            i += 1;
        }
        Ok(())
    }

    /// Row `i` as a primitive.
    pub fn splat(&self, i: usize) -> (p: Splat)
        requires
            i < self.splats.len(),
            self.splats[i as int].len() >= 9,
        ensures
            splat_of(p, self.splats[i as int]@),
    {
        let s = &self.splats[i];
        let beta = if s.len() == 10 {
            s[9]
        } else {
            F32_ONE
        };
        let p = Splat {
            x: s[0],
            y: s[1],
            sx: s[2],
            sy: s[3],
            theta: s[4],
            rgb: [s[5], s[6], s[7]],
            a: s[8],
            beta,
        };
        assert(p.rgb@ =~= seq![s@[5], s@[6], s@[7]]);
        p
    }

    /// Every row as a primitive, in composite order.
    pub fn iter_splats(&self) -> (ps: Vec<Splat>)
        requires
            forall|i: int| 0 <= i < self.splats.len() ==> #[trigger] self.splats[i].len() >= 9,
        ensures
            ps.len() == self.splats.len(),
            forall|i: int| 0 <= i < ps.len() ==> splat_of(#[trigger] ps[i], self.splats[i]@),
    {
        let n = self.splats.len();
        let mut ps: Vec<Splat> = Vec::new();
        let mut i: usize = 0;
        while i < n
            invariant
                n == self.splats.len(),
                forall|k: int| 0 <= k < n ==> #[trigger] self.splats[k].len() >= 9,
                i <= n,
                ps.len() == i,
                forall|k: int| 0 <= k < i ==> splat_of(#[trigger] ps[k], self.splats[k]@),
            decreases n - i,
        {
            ps.push(self.splat(i));
            i += 1;
        }
        ps
    }
}

} // verus!
