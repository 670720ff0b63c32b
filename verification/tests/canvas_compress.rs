use canvas::models::pixel::{CompressedPixel, PixelModel, PixelResult};

fn px(x: i64, y: i64, color: i32) -> PixelResult {
    PixelResult { community_id: None, x, y, user_id: String::from("u"), color }
}

fn pxc(x: i64, y: i64, color: i32, community: &str) -> PixelResult {
    PixelResult { community_id: Some(community.to_string()), x, y, user_id: String::from("u"), color }
}

fn runs(cs: &[CompressedPixel]) -> Vec<(i64, i64, i64, i32)> {
    cs.iter().map(|c| (c.x, c.y, c.run, c.color)).collect()
}

fn expand(cs: &[CompressedPixel]) -> Vec<(i64, i64, i32)> {
    let mut out = Vec::new();
    for c in cs {
        for j in 0..c.run {
            out.push((c.x + j, c.y, c.color));
        }
    }
    out
}

#[test]
fn compress_empty() {
    assert!(PixelModel::compress(&[]).is_empty());
}

#[test]
fn compress_single_pixel() {
    let cs = PixelModel::compress(&[px(3, 4, 7)]);
    assert_eq!(runs(&cs), vec![(3, 4, 1, 7)]);
}

#[test]
fn compress_joins_adjacent_same_colour() {
    let cs = PixelModel::compress(&[px(0, 0, 1), px(1, 0, 1), px(2, 0, 1)]);
    assert_eq!(runs(&cs), vec![(0, 0, 3, 1)]);
}

#[test]
fn compress_splits_on_colour_gap_and_row() {
    let pixels = [px(0, 0, 1), px(1, 0, 2), px(3, 0, 2), px(4, 0, 2), px(5, 1, 2)];
    let cs = PixelModel::compress(&pixels);
    assert_eq!(runs(&cs), vec![(0, 0, 1, 1), (1, 0, 1, 2), (3, 0, 2, 2), (5, 1, 1, 2)]);
}

#[test]
fn compress_sorts_rows_then_columns() {
    let pixels = [px(2, 1, 9), px(1, 0, 5), px(0, 1, 9), px(0, 0, 5), px(1, 1, 9)];
    let cs = PixelModel::compress(&pixels);
    assert_eq!(runs(&cs), vec![(0, 0, 2, 5), (0, 1, 3, 9)]);
}

#[test]
fn compress_negative_coordinates() {
    let pixels = [px(-1, -5, 4), px(-2, -5, 4), px(0, -5, 4), px(0, -6, 4)];
    let cs = PixelModel::compress(&pixels);
    assert_eq!(runs(&cs), vec![(0, -6, 1, 4), (-2, -5, 3, 4)]);
}

#[test]
fn compress_duplicates_keep_given_order() {
    // Two pixels at one position: stable order, each starts its own run,
    // and the second one may be continued.
    let pixels = [px(5, 0, 2), px(5, 0, 3), px(6, 0, 3)];
    let cs = PixelModel::compress(&pixels);
    assert_eq!(runs(&cs), vec![(5, 0, 1, 2), (5, 0, 2, 3)]);
    let swapped = [px(5, 0, 3), px(5, 0, 2), px(6, 0, 3)];
    let cs = PixelModel::compress(&swapped);
    assert_eq!(runs(&cs), vec![(5, 0, 1, 3), (5, 0, 1, 2), (6, 0, 1, 3)]);
}

#[test]
fn compress_keeps_community_of_run_head() {
    let pixels = [pxc(1, 0, 1, "b"), pxc(0, 0, 1, "a")];
    let cs = PixelModel::compress(&pixels);
    assert_eq!(cs.len(), 1);
    assert_eq!(cs[0].community_id.as_deref(), Some("a"));
    assert_eq!(cs[0].run, 2);
}

#[test]
fn compress_extreme_columns_do_not_overflow() {
    let pixels = [px(i64::MAX, 0, 1), px(i64::MIN, 0, 1), px(i64::MAX - 1, 0, 1)];
    let cs = PixelModel::compress(&pixels);
    assert_eq!(runs(&cs), vec![(i64::MIN, 0, 1, 1), (i64::MAX - 1, 0, 2, 1)]);
}

#[test]
fn compress_expands_back_to_sorted_pixels() {
    let pixels = [
        px(4, 2, 1),
        px(0, 0, 3),
        px(1, 0, 3),
        px(3, 2, 1),
        px(7, 0, 3),
        px(2, 2, 2),
        px(8, 0, 3),
        px(1, 1, 0),
    ];
    let cs = PixelModel::compress(&pixels);
    assert!(cs.iter().all(|c| c.run >= 1));
    let mut sorted: Vec<(i64, i64, i32)> = pixels.iter().map(|p| (p.x, p.y, p.color)).collect();
    sorted.sort_by_key(|p| (p.1, p.0));
    assert_eq!(expand(&cs), sorted);
    let total: i64 = cs.iter().map(|c| c.run).sum();
    assert_eq!(total, pixels.len() as i64);
}

#[test]
fn compress_large_canvas_row() {
    let mut pixels = Vec::new();
    for x in (0..1000).rev() {
        pixels.push(px(x, 7, 42));
    }
    let cs = PixelModel::compress(&pixels);
    assert_eq!(runs(&cs), vec![(0, 7, 1000, 42)]);
}

#[test]
fn compress_ignores_order_of_distinct_positions() {
    let pixels = vec![px(2, 0, 1), px(0, 0, 1), px(1, 0, 1), px(0, 1, 5), px(4, 3, 2)];
    let expected = runs(&PixelModel::compress(&pixels));
    let mut reordered = pixels.clone();
    reordered.reverse();
    assert_eq!(runs(&PixelModel::compress(&reordered)), expected);
    let rotated: Vec<PixelResult> = pixels[2..].iter().chain(pixels[..2].iter()).cloned().collect();
    assert_eq!(runs(&PixelModel::compress(&rotated)), expected);
}

#[test]
fn compress_expands_to_same_multiset() {
    let pixels = vec![px(9, 9, 1), px(-3, 2, 7), px(-2, 2, 7), px(0, 0, 0), px(1, 0, 0)];
    let mut cells = expand(&PixelModel::compress(&pixels));
    let mut given: Vec<(i64, i64, i32)> = pixels.iter().map(|p| (p.x, p.y, p.color)).collect();
    cells.sort();
    given.sort();
    assert_eq!(cells, given);
}
