use mathset::fit::{collect_winners, pass_hash, Winner};

fn bits(v: f32) -> u32 {
    v.to_bits()
}

fn winner(x: f32, alpha: f32) -> Winner {
    Winner {
        geom: [bits(x), bits(0.5), bits(0.01), bits(0.02)],
        rot: [bits(0.3), bits(alpha), bits(2.0), bits(3.0)],
        color: [bits(0.1), bits(0.2), bits(0.3), bits(0.0)],
    }
}

fn row(x: f32, alpha: f32) -> Vec<u32> {
    [x, 0.5, 0.01, 0.02, 0.3, 0.1, 0.2, 0.3, alpha, 2.0].iter().map(|v| v.to_bits()).collect()
}

#[test]
fn pass_hash_known_values() {
    assert_eq!(pass_hash(0), 129708002);
    assert_eq!(pass_hash(1), 2831084092);
    assert_eq!(pass_hash(2), 2055130248);
    assert_eq!(pass_hash(3), 2131687100);
    assert_eq!(pass_hash(1000), 2163870295);
    assert_eq!(pass_hash(u32::MAX), 3861530882);
}

#[test]
fn pass_hash_is_not_the_identity() {
    for n in 0..64u32 {
        assert_ne!(pass_hash(n), n);
    }
}

#[test]
fn winners_keep_cell_order_and_skip_rejected_cells() {
    let mut splats: Vec<Vec<u32>> = vec![row(0.9, 0.5)];
    let won = vec![winner(0.1, 0.4), winner(0.2, 0.0), winner(0.3, -0.0), winner(0.4, -1.0), winner(0.5, 1.0)];
    collect_winners(&mut splats, &won, 100);
    assert_eq!(splats, vec![row(0.9, 0.5), row(0.1, 0.4), row(0.5, 1.0)]);
}

#[test]
fn winners_stop_at_the_budget() {
    let mut splats: Vec<Vec<u32>> = vec![row(0.9, 0.5)];
    let won = vec![winner(0.1, 0.4), winner(0.2, 0.0), winner(0.3, 0.7), winner(0.4, 0.8)];
    collect_winners(&mut splats, &won, 3);
    assert_eq!(splats, vec![row(0.9, 0.5), row(0.1, 0.4), row(0.3, 0.7)]);
}

#[test]
fn a_nan_alpha_is_not_a_rejection() {
    // `alpha <= 0.0` is false for a NaN, so such a cell is kept
    let mut splats: Vec<Vec<u32>> = Vec::new();
    collect_winners(&mut splats, &vec![winner(0.1, f32::NAN)], 10);
    assert_eq!(splats.len(), 1);
    assert_eq!(splats[0][8], f32::NAN.to_bits());
}

#[test]
fn no_winners_leave_the_list_alone() {
    let mut splats: Vec<Vec<u32>> = vec![row(0.9, 0.5)];
    collect_winners(&mut splats, &vec![winner(0.1, 0.0)], 10);
    assert_eq!(splats, vec![row(0.9, 0.5)]);
}
