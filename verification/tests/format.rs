use mathset::format::{
    float_eq, gauss2d, gt_zero, is_finite, is_nan, le_zero, srgb, FormatError, MathSet, Splat,
    F32_ONE, VERSION,
};

fn bits(v: &[f32]) -> Vec<u32> {
    v.iter().map(|x| x.to_bits()).collect()
}

fn five() -> MathSet {
    MathSet {
        mathset: 0,
        canvas: [512, 512],
        space: "srgb".to_string(),
        bg: [0.05f32.to_bits(), 0.055f32.to_bits(), 0.075f32.to_bits()],
        primitive: "gauss2d".to_string(),
        splats: vec![
            bits(&[0.50, 0.50, 0.300, 0.300, 0.0, 0.15, 0.25, 0.55, 0.90]),
            bits(&[0.38, 0.42, 0.220, 0.045, -0.5235988, 0.95, 0.55, 0.15, 0.85, 2.0]),
        ],
    }
}

#[test]
fn a_well_formed_set_is_accepted() {
    assert_eq!(five().validate(), Ok(()));
    let mut empty = five();
    empty.splats.clear();
    assert_eq!(empty.validate(), Ok(()));
}

#[test]
fn every_rule_has_its_error() {
    let mut s = five();
    s.mathset = 1;
    assert_eq!(s.validate(), Err(FormatError::Version(1)));

    let mut s = five();
    s.primitive = "box".to_string();
    assert_eq!(s.validate(), Err(FormatError::Primitive));

    let mut s = five();
    s.space = "linear".to_string();
    assert_eq!(s.validate(), Err(FormatError::Space));

    let mut s = five();
    s.canvas = [512, 0];
    assert_eq!(s.validate(), Err(FormatError::ZeroCanvas));

    let mut s = five();
    s.splats[1].push(1.0f32.to_bits());
    assert_eq!(s.validate(), Err(FormatError::SplatLength { index: 1, len: 11 }));

    let mut s = five();
    s.splats[0][6] = f32::NAN.to_bits();
    assert_eq!(s.validate(), Err(FormatError::NonFinite { index: 0 }));

    let mut s = five();
    s.splats[1][0] = f32::INFINITY.to_bits();
    assert_eq!(s.validate(), Err(FormatError::NonFinite { index: 1 }));

    let mut s = five();
    s.splats[0][3] = 0.0f32.to_bits();
    assert_eq!(s.validate(), Err(FormatError::NonPositiveExtent { index: 0 }));

    let mut s = five();
    s.splats[0][2] = (-0.0f32).to_bits();
    assert_eq!(s.validate(), Err(FormatError::NonPositiveExtent { index: 0 }));

    let mut s = five();
    s.splats[1][9] = (-1.0f32).to_bits();
    assert_eq!(s.validate(), Err(FormatError::NonPositiveBeta { index: 1 }));
}

#[test]
fn header_is_checked_before_rows() {
    let mut s = five();
    s.canvas = [0, 0];
    s.splats[0].clear();
    assert_eq!(s.validate(), Err(FormatError::ZeroCanvas));
}

#[test]
fn opacity_zero_and_off_canvas_are_accepted() {
    let mut s = five();
    s.splats[0][8] = 0.0f32.to_bits();
    s.splats[0][0] = 7.5f32.to_bits();
    s.splats[0][1] = (-3.0f32).to_bits();
    assert_eq!(s.validate(), Ok(()));
}

#[test]
fn rows_become_primitives() {
    let s = five();
    let p = s.splat(0);
    assert_eq!(f32::from_bits(p.sx), 0.300);
    assert_eq!(p.beta, F32_ONE);
    assert_eq!(f32::from_bits(p.beta), 1.0);
    let q = s.splat(1);
    assert_eq!(f32::from_bits(q.theta), -0.5235988);
    assert_eq!(q.rgb, [0.95f32.to_bits(), 0.55f32.to_bits(), 0.15f32.to_bits()]);
    assert_eq!(f32::from_bits(q.beta), 2.0);
    let all: Vec<Splat> = s.iter_splats();
    assert_eq!(all, vec![p, q]);
}

#[test]
fn names_of_the_format() {
    assert_eq!(srgb(), "srgb");
    assert_eq!(gauss2d(), "gauss2d");
    assert_eq!(VERSION, 0);
}

#[test]
fn float_predicates_match_the_hardware() {
    let samples = [
        0.0f32, -0.0, 1.0, -1.0, 0.5, 1e-45, -1e-45, f32::MAX, f32::MIN, f32::INFINITY,
        f32::NEG_INFINITY, f32::NAN, -f32::NAN, 1.0000001, 0.99999994,
    ];
    for &a in &samples {
        assert_eq!(is_finite(a.to_bits()), a.is_finite(), "{a}");
        assert_eq!(is_nan(a.to_bits()), a.is_nan(), "{a}");
        assert_eq!(gt_zero(a.to_bits()), a > 0.0, "{a}");
        assert_eq!(le_zero(a.to_bits()), a <= 0.0, "{a}");
        for &b in &samples {
            assert_eq!(float_eq(a.to_bits(), b.to_bits()), a == b, "{a} {b}");
        }
    }
}
