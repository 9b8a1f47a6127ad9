use mathset::tiles::{bin_tiles, TileSpan};

fn span(x0: u32, x1: u32, y0: u32, y1: u32) -> TileSpan {
    TileSpan { x0, x1, y0, y1 }
}

#[test]
fn tiles_list_their_primitives_in_paint_order() {
    // a 3 by 2 grid
    let spans = vec![span(0, 1, 0, 0), span(1, 2, 0, 1), span(2, 2, 1, 1), span(0, 0, 0, 1)];
    let (off, idx) = bin_tiles(&spans, 3, 2);
    assert_eq!(off, vec![0, 2, 4, 5, 6, 7, 9]);
    let tile = |t: usize| idx[off[t] as usize..off[t + 1] as usize].to_vec();
    assert_eq!(tile(0), vec![0, 3]);
    assert_eq!(tile(1), vec![0, 1]);
    assert_eq!(tile(2), vec![1]);
    assert_eq!(tile(3), vec![3]);
    assert_eq!(tile(4), vec![1]);
    assert_eq!(tile(5), vec![1, 2]);
}

#[test]
fn an_inverted_span_covers_nothing() {
    let spans = vec![span(2, 1, 0, 0), span(0, 0, 1, 0), span(0, 0, 0, 0)];
    let (off, idx) = bin_tiles(&spans, 3, 1);
    assert_eq!(off, vec![0, 1, 1, 1]);
    assert_eq!(idx, vec![2]);
}

#[test]
fn no_primitives_no_entries() {
    let (off, idx) = bin_tiles(&Vec::new(), 4, 4);
    assert_eq!(off, vec![0; 17]);
    assert!(idx.is_empty());
}
