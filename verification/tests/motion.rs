use mathset::components::cell_components;
use mathset::frames::frame_changes;
use mathset::motion::{
    assign_regions, OptionError, Options,
    bucket_changes, change_regions, check_rect, measure_region, rank_regions, ChangeRegion,
    RectError, MIN_CHANGED,
};

/// `X,Y,W,H` read as the command line reads it, then checked by the library.
fn parse_rect(v: &str) -> Result<(f32, f32, f32, f32), String> {
    let values: Vec<u32> = v
        .split(',')
        .map(|n| n.trim().parse::<f32>().map(f32::to_bits).map_err(|_| format!("--rect: {n:?}")))
        .collect::<Result<_, _>>()?;
    let (x, y, w, h) = check_rect(&values).map_err(|e| format!("{e:?}"))?;
    Ok((f32::from_bits(x), f32::from_bits(y), f32::from_bits(w), f32::from_bits(h)))
}

fn contains(r: (f32, f32, f32, f32), x: f32, y: f32) -> bool {
    r.0 <= x && x <= r.0 + r.2 && r.1 <= y && y <= r.1 + r.3
}

#[test]
fn rectangle_parsing_and_membership_are_explicit() {
    let r = parse_rect("0.35,0.25,0.30,0.30").unwrap();
    assert!(contains(r, 0.35, 0.25));
    assert!(contains(r, 0.65, 0.55));
    assert!(!contains(r, 0.34, 0.25));
    assert!(parse_rect("0,0,0,1").is_err());
    assert!(parse_rect("0,0,NaN,1").is_err());
    assert!(parse_rect("0,0,1").is_err());
}

#[test]
fn rectangle_refusals() {
    let b = |v: &[f32]| v.iter().map(|x| x.to_bits()).collect::<Vec<u32>>();
    assert_eq!(check_rect(&b(&[0.0, 0.0, 1.0])), Err(RectError::Count(3)));
    assert_eq!(check_rect(&b(&[0.0, f32::INFINITY, 1.0, 1.0])), Err(RectError::NonFinite));
    assert_eq!(check_rect(&b(&[0.0, 0.0, 1.0, -1.0])), Err(RectError::NonPositive));
    assert_eq!(
        check_rect(&b(&[-0.5, 0.0, 1.0, 2.0])),
        Ok(((-0.5f32).to_bits(), 0, 1.0f32.to_bits(), 2.0f32.to_bits()))
    );
}

/// Two `w` by `h` RGB8 frames, equal except where `changed` says.
fn frames(w: u32, h: u32, changed: &dyn Fn(u32, u32) -> bool) -> (Vec<u8>, Vec<u8>) {
    let mut a = Vec::new();
    let mut b = Vec::new();
    for y in 0..h {
        for x in 0..w {
            let base = ((x * 7 + y * 13) % 200) as u8;
            a.extend_from_slice(&[base, base, base]);
            if changed(x, y) {
                b.extend_from_slice(&[base, base.wrapping_add(40), base]);
            } else {
                b.extend_from_slice(&[base, base, base]);
            }
        }
    }
    (a, b)
}

#[test]
fn changed_pixels_land_in_their_cells() {
    let (a, b) = frames(20, 10, &|x, y| (x, y) == (3, 2) || (x, y) == (17, 9) || (x, y) == (5, 4));
    let cells = bucket_changes(&a, &b, 20, 10, 2);
    assert_eq!(cells.len(), 3 * 2);
    assert_eq!(cells[0], vec![(3, 2), (5, 4)]);
    assert_eq!(cells[5], vec![(17, 9)]);
    assert!(cells[1].is_empty() && cells[2].is_empty() && cells[3].is_empty() && cells[4].is_empty());
    // a threshold above the difference sees nothing
    let cells = bucket_changes(&a, &b, 20, 10, 41);
    assert!(cells.iter().all(|c| c.is_empty()));
}

#[test]
fn cells_join_through_corners() {
    // 4 by 3 grid:
    //   X . . X
    //   . X . X
    //   . . . .
    let occ = vec![true, false, false, true, false, true, false, true, false, false, false, false];
    let comps = cell_components(&occ, 4, 3);
    assert_eq!(comps.len(), 2);
    let mut c0 = comps[0].clone();
    c0.sort();
    assert_eq!(c0, vec![0, 5]);
    assert_eq!(comps[0][0], 0);
    let mut c1 = comps[1].clone();
    c1.sort();
    assert_eq!(c1, vec![3, 7]);
    assert_eq!(comps[1][0], 3);
}

#[test]
fn regions_are_measured() {
    let cells = vec![vec![(3u32, 2u32), (5, 4)], vec![], vec![(17, 1)], vec![(9, 8), (10, 8)]];
    let r = measure_region(&cells, &vec![0, 3]);
    assert_eq!(r, ChangeRegion { changed: 4, bounds: (3, 2, 10, 8), seed: 0 });
}

#[test]
fn regions_rank_by_size_then_seed() {
    let r = |changed: usize, seed: u32| ChangeRegion { changed, bounds: (0, 0, 0, 0), seed };
    let ranked = rank_regions(&vec![r(9, 0), r(20, 3), r(9, 5), r(30, 8)]);
    assert_eq!(ranked, vec![r(30, 8), r(20, 3), r(9, 0), r(9, 5)]);
}

#[test]
fn separate_motions_stay_separate() {
    // a 10x10 block near the origin and a 4x4 block far away; a lone pixel is noise
    let (a, b) = frames(64, 32, &|x, y| {
        (x < 10 && y < 10) || (40..44).contains(&x) && (20..24).contains(&y) || (x, y) == (63, 0)
    });
    let regions = change_regions(&a, &b, 64, 32, 2);
    assert_eq!(regions.len(), 2);
    assert_eq!(regions[0].changed, 100);
    assert_eq!(regions[0].bounds, (0, 0, 9, 9));
    assert_eq!(regions[1].changed, 16);
    assert_eq!(regions[1].bounds, (40, 20, 43, 23));
    assert!(regions.iter().all(|r| r.changed >= MIN_CHANGED));
}

#[test]
fn texture_with_holes_stays_one_region() {
    // a checkerboard of changed pixels: no two changed pixels touch, but the cells do
    let (a, b) = frames(24, 8, &|x, y| (x + y) % 2 == 0);
    let regions = change_regions(&a, &b, 24, 8, 2);
    assert_eq!(regions.len(), 1);
    assert_eq!(regions[0].changed, 96);
    assert_eq!(regions[0].bounds, (0, 0, 23, 7));
}

#[test]
fn frames_are_resampled_to_the_working_size() {
    // 32x32 frames, canvas 64x64, limit 16: both frames come down to 16x16
    let (a, b) = frames(32, 32, &|x, y| x >= 16 && y >= 16);
    let fc = frame_changes([64, 64], 16, &a, 32, 32, &b, 32, 32, 2);
    assert_eq!((fc.w, fc.h), (16, 16));
    assert_eq!(fc.a.len(), 16 * 16 * 3);
    assert_eq!(fc.b.len(), 16 * 16 * 3);
    assert!(!fc.regions.is_empty());
    let top = fc.regions[0];
    assert!(top.bounds.0 >= 6 && top.bounds.1 >= 6, "{top:?}");
    assert_eq!(fc.regions, change_regions(&fc.a, &fc.b, 16, 16, 2));
}

#[test]
fn search_options_default_and_checks() {
    let o = Options::default();
    assert_eq!(f32::from_bits(o.range), 0.1);
    assert_eq!((o.levels, o.max_side), (5, 128));
    assert_eq!(o.check(), Ok(()));
    assert_eq!(Options { range: f32::NAN.to_bits(), ..o }.check(), Err(OptionError::Range));
    assert_eq!(Options { range: 0.0f32.to_bits(), ..o }.check(), Err(OptionError::Range));
    assert_eq!(Options { range: f32::INFINITY.to_bits(), ..o }.check(), Err(OptionError::Range));
    assert_eq!(Options { levels: 0, ..o }.check(), Err(OptionError::Levels));
    assert_eq!(Options { max_side: 0, ..o }.check(), Err(OptionError::MaxSide));
}

#[test]
fn each_primitive_moves_with_the_first_region_that_holds_it() {
    let inside = vec![
        vec![false, true, true, false, false],
        vec![true, true, false, false, true],
        vec![false, false, true, false, true],
    ];
    let groups = assign_regions(&inside, 5);
    assert_eq!(groups, vec![vec![1, 2], vec![0, 4], vec![]]);
}

#[test]
fn no_regions_assign_nothing() {
    assert_eq!(assign_regions(&Vec::new(), 3), Vec::<Vec<usize>>::new());
    assert_eq!(assign_regions(&vec![vec![]], 0), vec![Vec::<usize>::new()]);
}

#[test]
fn frames_at_the_working_size_are_compared_as_they_are() {
    // canvas 64x64 with limit 16: frames that are already 16x16 stay as given
    let (a, b) = frames(16, 16, &|x, y| x >= 8 && y >= 8);
    let fc = frame_changes([64, 64], 16, &a, 16, 16, &b, 16, 16, 2);
    assert_eq!((fc.w, fc.h), (16, 16));
    assert_eq!(fc.a, a);
    assert_eq!(fc.b, b);
    assert_eq!(fc.regions, change_regions(&a, &b, 16, 16, 2));
    assert_eq!(fc.regions.len(), 1);
    assert_eq!(fc.regions[0].changed, 64);
    assert_eq!(fc.regions[0].bounds, (8, 8, 15, 15));
}

#[test]
fn frames_without_pixels_become_black() {
    let (_, b) = frames(16, 16, &|_, _| false);
    let fc = frame_changes([16, 16], 16, &Vec::new(), 0, 0, &b, 16, 16, 2);
    assert_eq!(fc.a, vec![0u8; 16 * 16 * 3]);
    assert_eq!(fc.b, b);
}
