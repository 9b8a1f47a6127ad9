//! A positional transition between two ordered sets.
//!
//! Motion only has an identity when row `i` still means row `i`. So the two
//! endpoints must have identical metadata and identical non-position
//! parameters; only `x` and `y` may differ. Every intermediate set is then an
//! evaluation of the recovered movement, not a cross-fade of unrelated fits.
//!
//! This module decides whether two sets admit a transition and which rows
//! move. Evaluating a position at `t` is floating-point arithmetic on the
//! positions and is left to the caller.
use vstd::prelude::*;
use crate::format::{
    all_finite, conforms, f32_eq, f32_is_finite, f32_is_nan, f32_is_zero, f32_sign_set, float_eq, is_finite,
    splat_ok, MathSet, F32_ONE,
};

verus! {

/// Why two sets admit no positional transition.
#[derive(Clone, Copy, Debug, PartialEq, Eq)]
pub enum TransitionError {
    /// `t` is not a finite number in `[0, 1]`.
    Time,
    /// The headers differ: version, canvas, colour space, primitive or background.
    Metadata,
    /// The sets hold different numbers of rows.
    Count { from: usize, to: usize },
    /// Row `index` has different lengths in the two sets.
    ParameterCount { index: usize, from: usize, to: usize },
    /// Row `index` changes a number other than `x` and `y`.
    NonPosition { index: usize },
}

/// `0.0 <= t <= 1.0` for a finite `t` (either zero counts).
pub open spec fn time_ok(t: u32) -> bool {
    f32_is_finite(t) && (f32_is_zero(t) || (!f32_sign_set(t) && t <= F32_ONE))
}

pub open spec fn same_metadata(from: MathSet, to: MathSet) -> bool {
    &&& from.mathset == to.mathset
    &&& from.canvas[0] == to.canvas[0]
    &&& from.canvas[1] == to.canvas[1]
    &&& from.space@ == to.space@
    &&& from.primitive@ == to.primitive@
    &&& forall|c: int| 0 <= c < 3 ==> f32_eq(#[trigger] from.bg[c], to.bg[c])
}

/// Every number after `x` and `y` is equal in the two rows.
pub open spec fn rest_equal(a: Seq<u32>, b: Seq<u32>) -> bool {
    forall|j: int| 2 <= j < a.len() ==> f32_eq(#[trigger] a[j], b[j])
}

pub open spec fn row_moves(a: Seq<u32>, b: Seq<u32>) -> bool {
    !f32_eq(a[0], b[0]) || !f32_eq(a[1], b[1])
}

pub open spec fn row_error(i: int, a: Seq<u32>, b: Seq<u32>) -> Option<TransitionError> {
    if a.len() != b.len() {
        Some(
            TransitionError::ParameterCount {
                index: i as usize,
                from: a.len() as usize,
                to: b.len() as usize,
            },
        )
    } else if !rest_equal(a, b) {
        Some(TransitionError::NonPosition { index: i as usize })
    } else {
        None
    }
}

/// The first bad row at or after `i`.
pub open spec fn first_row_error(from: Seq<Vec<u32>>, to: Seq<Vec<u32>>, i: int) -> Option<
    TransitionError,
>
    decreases from.len() - i,
{
    if i < 0 || i >= from.len() {
        None
    } else {
        match row_error(i, from[i]@, to[i]@) {
            Some(e) => Some(e),
            None => first_row_error(from, to, i + 1),
        }
    }
}

/// Walking the rows from `i` as a transition check does, the first row that
/// is not passed over has equal lengths in both sets but fewer than the two
/// numbers of a position, so its non-position part cannot be compared.
pub open spec fn short_row_from(from: Seq<Vec<u32>>, to: Seq<Vec<u32>>, i: int) -> bool
    decreases from.len() - i,
{
    if i < 0 || i >= from.len() {
        false
    } else if from[i]@.len() != to[i]@.len() {
        false
    } else if from[i]@.len() < 2 {
        true
    } else if !rest_equal(from[i]@, to[i]@) {
        false
    } else {
        short_row_from(from, to, i + 1)
    }
}

/// A transition check that gets past the time, the headers and the counts
/// reaches a row too short to hold a position.
pub open spec fn reaches_short_row(from: MathSet, to: MathSet, t: u32) -> bool {
    &&& time_ok(t)
    &&& same_metadata(from, to)
    &&& from.splats.len() == to.splats.len()
    &&& short_row_from(from.splats@, to.splats@, 0)
}

/// How many of the first `k` rows move.
pub open spec fn moving_rows(from: Seq<Vec<u32>>, to: Seq<Vec<u32>>, k: int) -> nat
    decreases k,
{
    if k <= 0 {
        0
    } else {
        moving_rows(from, to, k - 1) + if row_moves(from[k - 1]@, to[k - 1]@) {
            1nat
        } else {
            0nat
        }
    }
}

/// The verdict on a transition: the first reason it is refused, or the
/// number of rows that move.
pub open spec fn spec_check_between(from: MathSet, to: MathSet, t: u32) -> Result<
    usize,
    TransitionError,
> {
    if !time_ok(t) {
        Err(TransitionError::Time)
    } else if !same_metadata(from, to) {
        Err(TransitionError::Metadata)
    } else if from.splats.len() != to.splats.len() {
        Err(TransitionError::Count { from: from.splats.len(), to: to.splats.len() })
    } else {
        match first_row_error(from.splats@, to.splats@, 0) {
            Some(e) => Err(e),
            None => Ok(moving_rows(from.splats@, to.splats@, from.splats.len() as int) as usize),
        }
    }
}

/// The rule of a positional transition, stated directly.
pub open spec fn transition_allowed(from: MathSet, to: MathSet, t: u32) -> bool {
    &&& time_ok(t)
    &&& same_metadata(from, to)
    &&& from.splats.len() == to.splats.len()
    &&& forall|i: int|
        0 <= i < from.splats.len() ==> (#[trigger] from.splats[i]).len() == to.splats[i].len()
            && rest_equal(from.splats[i]@, to.splats[i]@)
}

proof fn lemma_first_row_error_none(from: Seq<Vec<u32>>, to: Seq<Vec<u32>>, i: int)
    requires
        0 <= i,
    ensures
        first_row_error(from, to, i) is None <==> forall|k: int|
            i <= k < from.len() ==> (#[trigger] from[k]).len() == to[k].len() && rest_equal(
                from[k]@,
                to[k]@,
            ),
    decreases from.len() - i,
{
    if i < from.len() {
        lemma_first_row_error_none(from, to, i + 1);
    }
}

fn time_in_unit(t: u32) -> (r: bool)
    ensures
        r == time_ok(t),
{
    is_finite(t) && (t & 0x7fff_ffffu32 == 0 || (t & 0x8000_0000u32 == 0 && t <= F32_ONE))
}

fn headers_match(from: &MathSet, to: &MathSet) -> (r: bool)
    ensures
        r == same_metadata(*from, *to),
{
    let bg_same = float_eq(from.bg[0], to.bg[0]) && float_eq(from.bg[1], to.bg[1])
        && float_eq(from.bg[2], to.bg[2]);
    proof {
        if !bg_same {
            if !f32_eq(from.bg[0], to.bg[0]) {
                assert(!f32_eq(from.bg[0], to.bg[0]));
            } else if !f32_eq(from.bg[1], to.bg[1]) {
                assert(!f32_eq(from.bg[1], to.bg[1]));
            } else {
                assert(!f32_eq(from.bg[2], to.bg[2]));
            }
        }
    }
    from.mathset == to.mathset && from.canvas[0] == to.canvas[0] && from.canvas[1]
        == to.canvas[1] && from.space == to.space && from.primitive == to.primitive && bg_same
}

/// Whether rows `a` and `b` agree after the position.
fn rest_matches(a: &Vec<u32>, b: &Vec<u32>) -> (r: bool)
    requires
        a.len() == b.len(),
    ensures
        r == rest_equal(a@, b@),
{
    let n = a.len();
    let mut j: usize = 2;
    while j < n
        invariant
            n == a.len(),
            n == b.len(),
            2 <= j,
            forall|jj: int| 2 <= jj < j && jj < n ==> f32_eq(#[trigger] a@[jj], b@[jj]),
        decreases n - j,
    {
        if !float_eq(a[j], b[j]) {
            assert(!f32_eq(a@[j as int], b@[j as int]));
            return false;
        }
        j += 1;
    }
    true
}

/// Whether a transition check of `from` and `to` at `t` would reach a row
/// with fewer than two numbers. Sets that validate never do.
#[verifier::loop_isolation(false)]
pub fn short_row_reached(from: &MathSet, to: &MathSet, t: u32) -> (r: bool)
    ensures
        r == reaches_short_row(*from, *to, t),
{
    if !time_in_unit(t) || !headers_match(from, to) {
        return false;
    }
    let n = from.splats.len();
    if n != to.splats.len() {
        return false;
    }
    let mut i: usize = 0;
    while i < n
        invariant
            n == from.splats.len(),
            n == to.splats.len(),
            i <= n,
            short_row_from(from.splats@, to.splats@, 0) == short_row_from(from.splats@, to.splats@, i as int),
        decreases n - i,
    {
        let a = &from.splats[i];
        let b = &to.splats[i];
        if a.len() != b.len() {
            return false;
        }
        if a.len() < 2 {
            return true;
        }
        if !rest_matches(a, b) {
            return false;
        }
        i += 1;
    }
    false
}

/// Decides whether `to` is a positional continuation of `from` at time `t`
/// (the bit pattern of an `f32`), and counts the rows whose position changes.
///
/// The checks run in order: `t` in `[0, 1]`, the headers, the row counts,
/// then each row's length and its non-position numbers.
#[verifier::loop_isolation(false)]
pub fn check_between(from: &MathSet, to: &MathSet, t: u32) -> (r: Result<usize, TransitionError>)
    requires
        !reaches_short_row(*from, *to, t),
    ensures
        r == spec_check_between(*from, *to, t),
        r is Ok <==> transition_allowed(*from, *to, t),
        r matches Ok(n) ==> n == position_changed(from.splats@, to.splats@, from.splats.len() as int).len(),
{
    proof {
        lemma_first_row_error_none(from.splats@, to.splats@, 0);
        lemma_moving_rows_count(from.splats@, to.splats@, from.splats.len() as int);
    }
    if !time_in_unit(t) {
        return Err(TransitionError::Time);
    }
    if !headers_match(from, to) {
        return Err(TransitionError::Metadata);
    }
    let n = from.splats.len();
    if n != to.splats.len() {
        return Err(TransitionError::Count { from: n, to: to.splats.len() });
    }
    let mut moving: usize = 0;
    let mut i: usize = 0;
    while i < n
        invariant
            n == from.splats.len(),
            n == to.splats.len(),
            i <= n,
            first_row_error(from.splats@, to.splats@, 0) == first_row_error(
                from.splats@,
                to.splats@,
                i as int,
            ),
            moving == moving_rows(from.splats@, to.splats@, i as int),
            moving <= i,
            !short_row_from(from.splats@, to.splats@, i as int),
        decreases n - i,
    {
        let a = &from.splats[i];
        let b = &to.splats[i];
        if a.len() != b.len() {
            assert(first_row_error(from.splats@, to.splats@, i as int) == Some(
                TransitionError::ParameterCount { index: i, from: a.len(), to: b.len() },
            ));
            return Err(TransitionError::ParameterCount { index: i, from: a.len(), to: b.len() });
        }
        if !rest_matches(a, b) {
            assert(first_row_error(from.splats@, to.splats@, i as int) == Some(
                TransitionError::NonPosition { index: i },
            ));
            return Err(TransitionError::NonPosition { index: i });
        }
        if !float_eq(a[0], b[0]) || !float_eq(a[1], b[1]) {
            moving += 1;
        }
        i += 1;
    }
    Ok(moving)
}

proof fn lemma_still_rows(rows: Seq<Vec<u32>>, k: int)
    requires
        0 <= k <= rows.len(),
        forall|i: int| 0 <= i < rows.len() ==> splat_ok(#[trigger] rows[i]@),
    ensures
        moving_rows(rows, rows, k) == 0,
        first_row_error(rows, rows, k) is None,
    decreases rows.len() - k,
{
    if k < rows.len() {
        lemma_still_rows(rows, k + 1);
        assert(splat_ok(rows[k]@));
        assert(all_finite(rows[k]@));
        assert(f32_is_finite(rows[k]@[0]) && f32_is_finite(rows[k]@[1]));
        assert forall|j: int| 2 <= j < rows[k]@.len() implies f32_eq(#[trigger] rows[k]@[j], rows[k]@[j]) by {
            assert(f32_is_finite(rows[k]@[j]));
        }
    }
    lemma_moving_rows_none(rows, k);
}

proof fn lemma_moving_rows_none(rows: Seq<Vec<u32>>, k: int)
    requires
        0 <= k <= rows.len(),
        forall|i: int| 0 <= i < rows.len() ==> splat_ok(#[trigger] rows[i]@),
    ensures
        moving_rows(rows, rows, k) == 0,
    decreases k,
{
    if k > 0 {
        lemma_moving_rows_none(rows, k - 1);
        assert(splat_ok(rows[k - 1]@));
        assert(all_finite(rows[k - 1]@));
        assert(f32_is_finite(rows[k - 1]@[0]) && f32_is_finite(rows[k - 1]@[1]));
    }
}

/// Standing still is a transition: a conforming set whose background is not
/// NaN is a positional transition of itself at every admissible time, and no
/// row moves.
pub proof fn lemma_transition_to_itself(ms: MathSet, t: u32)
    requires
        conforms(ms),
        forall|c: int| 0 <= c < 3 ==> !f32_is_nan(#[trigger] ms.bg[c]),
        time_ok(t),
    ensures
        spec_check_between(ms, ms, t) == Ok::<usize, TransitionError>(0),
{
    lemma_still_rows(ms.splats@, 0);
    lemma_moving_rows_none(ms.splats@, ms.splats@.len() as int);
    assert(same_metadata(ms, ms));
}

proof fn lemma_rows_swap(from: Seq<Vec<u32>>, to: Seq<Vec<u32>>, k: int)
    requires
        0 <= k <= from.len(),
        from.len() == to.len(),
        first_row_error(from, to, 0) is None,
    ensures
        first_row_error(to, from, k) is None,
        moving_rows(to, from, k) == moving_rows(from, to, k),
    decreases from.len() - k,
{
    lemma_first_row_error_none(from, to, 0);
    if k < from.len() {
        lemma_rows_swap(from, to, k + 1);
        assert(from[k]@.len() == to[k]@.len() && rest_equal(from[k]@, to[k]@));
        assert(rest_equal(to[k]@, from[k]@));
    }
    lemma_moving_rows_swap(from, to, k);
}

proof fn lemma_moving_rows_swap(from: Seq<Vec<u32>>, to: Seq<Vec<u32>>, k: int)
    requires
        0 <= k <= from.len(),
        from.len() == to.len(),
    ensures
        moving_rows(to, from, k) == moving_rows(from, to, k),
    decreases k,
{
    if k > 0 {
        lemma_moving_rows_swap(from, to, k - 1);
        assert(row_moves(to[k - 1]@, from[k - 1]@) == row_moves(from[k - 1]@, to[k - 1]@));
    }
}

/// A transition runs both ways: when `to` continues `from` at time `t`, then
/// `from` continues `to` at `t`, and the same number of rows move.
pub proof fn lemma_transition_reverses(from: MathSet, to: MathSet, t: u32)
    requires
        spec_check_between(from, to, t) is Ok,
    ensures
        spec_check_between(to, from, t) == spec_check_between(from, to, t),
{
    assert(same_metadata(to, from));
    lemma_rows_swap(from.splats@, to.splats@, 0);
    lemma_moving_rows_swap(from.splats@, to.splats@, from.splats@.len() as int);
}

/// The rows among the first `k` whose `x` or `y` differs, as floats, between
/// the two sets.
pub open spec fn position_changed(from: Seq<Vec<u32>>, to: Seq<Vec<u32>>, k: int) -> Set<int> {
    Set::new(
        |i: int|
            0 <= i < k && (!f32_eq(from[i]@[0], to[i]@[0]) || !f32_eq(from[i]@[1], to[i]@[1])),
    )
}

proof fn lemma_moving_rows_count(from: Seq<Vec<u32>>, to: Seq<Vec<u32>>, k: int)
    requires
        0 <= k,
    ensures
        position_changed(from, to, k).finite(),
        position_changed(from, to, k).len() == moving_rows(from, to, k),
    decreases k,
{
    if k == 0 {
        assert(position_changed(from, to, 0) =~= Set::<int>::empty());
    } else {
        lemma_moving_rows_count(from, to, k - 1);
        let before = position_changed(from, to, k - 1);
        if !f32_eq(from[k - 1]@[0], to[k - 1]@[0]) || !f32_eq(from[k - 1]@[1], to[k - 1]@[1]) {
            assert(position_changed(from, to, k) =~= before.insert(k - 1));
            assert(!before.contains(k - 1));
        } else {
            assert(position_changed(from, to, k) =~= before);
        }
    }
}

/// A transition counts as moving exactly the rows whose `x` or `y` changes:
/// when it is allowed, the count is the number of rows `i` with
/// `from[i][0] != to[i][0]` or `from[i][1] != to[i][1]` as floats. A row
/// that only moves vertically counts, and so does one that only moves
/// sideways.
pub proof fn lemma_moving_rows_are_position_changes(from: MathSet, to: MathSet, t: u32)
    requires
        transition_allowed(from, to, t),
    ensures
        spec_check_between(from, to, t) == Ok::<usize, TransitionError>(
            position_changed(from.splats@, to.splats@, from.splats.len() as int).len() as usize,
        ),
{
    lemma_first_row_error_none(from.splats@, to.splats@, 0);
    lemma_moving_rows_count(from.splats@, to.splats@, from.splats.len() as int);
}

} // verus!
