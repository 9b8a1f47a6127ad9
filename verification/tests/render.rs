use mathset::fit::{fit_size, FitOptionError, Options, Report, MIN_FIT_SIDE};
use mathset::fit::fit_target;
use mathset::render::{drawn_count, working_size, working_target};

#[test]
fn working_size_preserves_aspect_and_never_upscales() {
    assert_eq!(working_size([451, 511], Some(128)), (113, 128));
    assert_eq!(working_size([451, 511], Some(1024)), (451, 511));
    assert_eq!(working_size([1, 511], Some(64)), (1, 64));
}

#[test]
fn working_size_without_a_limit_is_the_canvas() {
    assert_eq!(working_size([1200, 260], None), (1200, 260));
    assert_eq!(working_size([512, 512], Some(512)), (512, 512));
}

#[test]
fn working_size_rounds_to_nearest_pixel() {
    // 1200x260 to a long edge of 100: 260 * 100 / 1200 = 21.67 -> 22
    assert_eq!(working_size([1200, 260], Some(100)), (100, 22));
    // exact half rounds up: 3 * 1 / 2 = 1.5 -> 2
    assert_eq!(working_size([2, 3], Some(1)), (1, 1));
    assert_eq!(working_size([4, 3], Some(2)), (2, 2));
    // a zero limit still keeps one pixel per side
    assert_eq!(working_size([640, 480], Some(0)), (1, 1));
}

#[test]
fn working_size_matches_float_rounding_on_ordinary_sizes() {
    for &(w, h) in &[(451u32, 511u32), (1920, 1080), (333, 777), (1000, 7), (4096, 3)] {
        for &m in &[16u32, 64, 128, 300, 1023] {
            let long = w.max(h);
            let expect = if long > m {
                let k = m as f32 / long as f32;
                (((w as f32 * k).round() as u32).max(1), ((h as f32 * k).round() as u32).max(1))
            } else {
                (w, h)
            };
            assert_eq!(working_size([w, h], Some(m)), expect, "{w}x{h} to {m}");
        }
    }
}

#[test]
fn fit_size_never_goes_below_eight() {
    assert_eq!(fit_size([3000, 2000], 1024), (1024, 683));
    assert_eq!(fit_size([4, 2], 1024), (MIN_FIT_SIDE, MIN_FIT_SIDE));
    assert_eq!(fit_size([2000, 10], 1000), (1000, 8));
}

#[test]
fn drawn_count_is_a_prefix() {
    assert_eq!(drawn_count(None, 24886), 24886);
    assert_eq!(drawn_count(Some(60), 24886), 60);
    assert_eq!(drawn_count(Some(100), 5), 5);
    assert_eq!(drawn_count(Some(0), 5), 0);
}

#[test]
fn report_holds_what_the_fit_aimed_at() {
    let r = Report { w: 2, h: 1, target: vec![0, 0, 0, 255, 9, 9, 9, 255], passes_run: 220 };
    assert_eq!(r.target.len(), (r.w * r.h * 4) as usize);
    assert_eq!(r.passes_run, 220);
}

#[test]
fn fit_options_default_and_checks() {
    let o = Options::default();
    assert_eq!((o.max_side, o.passes, o.budget, o.candidates), (1024, 220, 200_000, 32));
    assert_eq!(f32::from_bits(o.pace), 0.08);
    assert_eq!(f32::from_bits(o.sigma_start), 0.11);
    assert_eq!(f32::from_bits(o.sigma_end), 0.0045);
    assert_eq!(f32::from_bits(o.alpha_lo), 0.35);
    assert_eq!(f32::from_bits(o.alpha_hi), 1.0);
    assert_eq!(f32::from_bits(o.beta_max), 6.0);
    assert!(!o.perceptual);
    assert_eq!(o.check(), Ok(()));
    assert_eq!(Options { candidates: 0, ..o }.check(), Err(FitOptionError::Candidates));
    assert_eq!(Options { candidates: 65, ..o }.check(), Err(FitOptionError::Candidates));
    assert_eq!(Options { candidates: 64, ..o }.check(), Ok(()));
    for bad in [-0.1f32, 1.5, f32::NAN, f32::INFINITY] {
        assert_eq!(Options { pace: bad.to_bits(), ..o }.check(), Err(FitOptionError::Pace), "{bad}");
    }
    for good in [0.0f32, -0.0, 1.0, 0.5] {
        assert_eq!(Options { pace: good.to_bits(), ..o }.check(), Ok(()), "{good}");
    }
}

/// A `w` by `h` RGBA8 gradient.
fn gradient(w: u32, h: u32) -> Vec<u8> {
    let mut v = Vec::new();
    for y in 0..h {
        for x in 0..w {
            v.extend_from_slice(&[(x * 7) as u8, (y * 11) as u8, ((x + y) * 3) as u8, 255]);
        }
    }
    v
}

#[test]
fn fit_target_is_resampled_to_the_working_size() {
    let src = gradient(64, 32);
    let (w, h, target) = fit_target(&src, 64, 32, 16);
    assert_eq!((w, h), (16, 8));
    assert_eq!(target.len(), 16 * 8 * 4);
    // every pixel of the source is opaque, and so is every pixel resampled
    assert!(target.chunks_exact(4).all(|p| p[3] == 255));
    // never below eight pixels a side
    let (w, h, target) = fit_target(&src, 64, 32, 4);
    assert_eq!((w, h), (8, 8));
    assert_eq!(target.len(), 8 * 8 * 4);
}

#[test]
fn working_target_follows_the_canvas() {
    let src = gradient(40, 30);
    let (w, h, target) = working_target(&src, 40, 30, [451, 511], Some(128));
    assert_eq!((w, h), (113, 128));
    assert_eq!(target.len(), 113 * 128 * 4);
    // no limit: the canvas itself
    let (w, h, target) = working_target(&src, 40, 30, [20, 10], None);
    assert_eq!((w, h), (20, 10));
    assert_eq!(target.len(), 20 * 10 * 4);
}

#[test]
fn a_target_already_at_the_working_size_is_unchanged() {
    let src = gradient(16, 8);
    let (w, h, target) = fit_target(&src, 16, 8, 16);
    assert_eq!((w, h), (16, 8));
    assert_eq!(target, src);
    let (w, h, target) = working_target(&src, 16, 8, [32, 16], Some(16));
    assert_eq!((w, h), (16, 8));
    assert_eq!(target, src);
}

#[test]
fn a_source_without_pixels_gives_a_zero_target() {
    let (w, h, target) = working_target(&Vec::new(), 0, 5, [20, 10], None);
    assert_eq!((w, h), (20, 10));
    assert_eq!(target, vec![0u8; 20 * 10 * 4]);
    let (w, h, target) = fit_target(&Vec::new(), 0, 0, 64);
    assert_eq!((w, h), (8, 8));
    assert_eq!(target, vec![0u8; 8 * 8 * 4]);
}
