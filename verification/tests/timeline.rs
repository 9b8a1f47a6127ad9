use mathset::timeline::{Timeline, TimelineError};

fn timeline(frames: &[&str]) -> Timeline {
    Timeline { timeline: 0, fps: 24.0f32.to_bits(), frames: frames.iter().map(|s| s.to_string()).collect() }
}

#[test]
fn a_good_timeline_is_accepted() {
    assert_eq!(timeline(&["a.mathset", "b.mathset"]).validate(), Ok(()));
}

#[test]
fn each_timeline_refusal_has_its_reason() {
    let mut t = timeline(&["a", "b"]);
    t.timeline = 3;
    assert_eq!(t.validate(), Err(TimelineError::Version(3)));
    for fps in [0.0f32, -24.0, f32::NAN, f32::INFINITY] {
        let mut t = timeline(&["a", "b"]);
        t.fps = fps.to_bits();
        assert_eq!(t.validate(), Err(TimelineError::Fps));
    }
    assert_eq!(timeline(&["a"]).validate(), Err(TimelineError::TooFewFrames));
    assert_eq!(timeline(&["a", "", "c"]).validate(), Err(TimelineError::EmptyFrame));
}
