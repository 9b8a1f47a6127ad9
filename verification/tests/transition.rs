use mathset::format::MathSet;
use mathset::transition::{check_between, short_row_reached, TransitionError};

fn endpoint(x: f32, colour: f32) -> MathSet {
    MathSet {
        mathset: 0,
        canvas: [100, 80],
        space: "srgb".into(),
        bg: [0.0f32.to_bits(); 3],
        primitive: "gauss2d".into(),
        splats: vec![[x, 0.2, 0.03, 0.04, 0.0, colour, 0.2, 0.3, 0.8, 1.0]
            .iter()
            .map(|v| v.to_bits())
            .collect()],
    }
}

/// The position at `t`. Evaluating it is floating-point work that the
/// library leaves to its caller; the library decides the count of moving rows.
fn at(a: f32, b: f32, t: f32) -> f32 {
    a + (b - a) * t
}

#[test]
fn evaluates_position_at_t() {
    let from = endpoint(0.1, 0.1);
    let to = endpoint(0.5, 0.1);
    let moving = check_between(&from, &to, 0.25f32.to_bits()).unwrap();
    assert_eq!(moving, 1);
    let x = at(f32::from_bits(from.splats[0][0]), f32::from_bits(to.splats[0][0]), 0.25);
    let y = at(f32::from_bits(from.splats[0][1]), f32::from_bits(to.splats[0][1]), 0.25);
    assert!((x - 0.2).abs() < f32::EPSILON);
    assert_eq!(y, 0.2);
}

#[test]
fn rejects_cross_fades_and_out_of_range_time() {
    assert!(check_between(&endpoint(0.1, 0.1), &endpoint(0.5, 0.2), 0.5f32.to_bits()).is_err());
    assert!(check_between(&endpoint(0.1, 0.1), &endpoint(0.5, 0.1), 1.1f32.to_bits()).is_err());
}

#[test]
fn each_refusal_has_its_reason() {
    let a = endpoint(0.1, 0.1);
    let b = endpoint(0.5, 0.1);
    assert_eq!(check_between(&a, &b, f32::NAN.to_bits()), Err(TransitionError::Time));
    assert_eq!(check_between(&a, &b, (-0.5f32).to_bits()), Err(TransitionError::Time));
    assert_eq!(check_between(&a, &b, f32::INFINITY.to_bits()), Err(TransitionError::Time));
    assert_eq!(check_between(&a, &b, (-0.0f32).to_bits()), Ok(1));
    assert_eq!(check_between(&a, &b, 1.0f32.to_bits()), Ok(1));

    let mut c = endpoint(0.5, 0.1);
    c.canvas = [100, 81];
    assert_eq!(check_between(&a, &c, 0.5f32.to_bits()), Err(TransitionError::Metadata));

    let mut c = endpoint(0.5, 0.1);
    c.bg[2] = 0.01f32.to_bits();
    assert_eq!(check_between(&a, &c, 0.5f32.to_bits()), Err(TransitionError::Metadata));

    let mut c = endpoint(0.5, 0.1);
    c.splats.push(c.splats[0].clone());
    assert_eq!(check_between(&a, &c, 0.5f32.to_bits()), Err(TransitionError::Count { from: 1, to: 2 }));

    let mut c = endpoint(0.5, 0.1);
    c.splats[0].pop();
    assert_eq!(
        check_between(&a, &c, 0.5f32.to_bits()),
        Err(TransitionError::ParameterCount { index: 0, from: 10, to: 9 })
    );

    assert_eq!(
        check_between(&a, &endpoint(0.5, 0.9), 0.5f32.to_bits()),
        Err(TransitionError::NonPosition { index: 0 })
    );
}

#[test]
fn standing_still_moves_nothing() {
    let a = endpoint(0.1, 0.1);
    assert_eq!(check_between(&a, &a, 0.5f32.to_bits()), Ok(0));
    // the two zeros are the same position
    let mut b = endpoint(0.0, 0.1);
    b.splats[0][0] = (-0.0f32).to_bits();
    assert_eq!(check_between(&endpoint(0.0, 0.1), &b, 0.5f32.to_bits()), Ok(0));
}

#[test]
fn a_transition_runs_both_ways() {
    let mut a = endpoint(0.1, 0.1);
    let mut b = endpoint(0.5, 0.1);
    a.splats.push(a.splats[0].clone());
    b.splats.push(a.splats[0].clone());
    assert_eq!(check_between(&a, &b, 0.7f32.to_bits()), Ok(1));
    assert_eq!(check_between(&b, &a, 0.7f32.to_bits()), Ok(1));
}

#[test]
fn short_rows_are_only_reached_past_the_earlier_checks() {
    let mut from = endpoint(0.1, 0.1);
    let mut to = endpoint(0.5, 0.1);
    let half = 0.5f32.to_bits();
    assert!(!short_row_reached(&from, &to, half));
    // a short second row behind a row that changes colour is never reached
    from.splats.push(vec![1]);
    to.splats.push(vec![1]);
    to.splats[0][5] = 0.9f32.to_bits();
    assert!(!short_row_reached(&from, &to, half));
    assert_eq!(check_between(&from, &to, half), Err(TransitionError::NonPosition { index: 0 }));
    // rows of different lengths are refused before their contents are read
    to.splats[0][5] = 0.1f32.to_bits();
    to.splats[1] = vec![1, 2, 3];
    assert!(!short_row_reached(&from, &to, half));
    assert_eq!(
        check_between(&from, &to, half),
        Err(TransitionError::ParameterCount { index: 1, from: 1, to: 3 })
    );
    // a bad time is refused first
    to.splats[1] = vec![1];
    assert!(!short_row_reached(&from, &to, 2.0f32.to_bits()));
    assert_eq!(check_between(&from, &to, 2.0f32.to_bits()), Err(TransitionError::Time));
    // otherwise the short row is reached
    assert!(short_row_reached(&from, &to, half));
}
