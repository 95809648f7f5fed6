use obamify::cost::heuristic;
use obamify::drawing::{stroke_reward, DrawingPixel, PixelData, DRAWING_CANVAS_SIZE, STROKE_REWARD};

const N: usize = DRAWING_CANVAS_SIZE * DRAWING_CANVAS_SIZE;

#[test]
fn heuristic_exact_value() {
    // color distance 10^2 weighted by 2, plus (1 x distance 5)^2 = 25
    assert_eq!(heuristic((0, 0), (3, 4), (10, 0, 0), (0, 0, 0), 2, 1), 225);
    // (3 x distance 5)^2 = 225
    assert_eq!(heuristic((0, 0), (3, 4), (0, 0, 0), (0, 0, 0), 2, 3), 225);
    assert_eq!(heuristic((5, 5), (5, 5), (1, 2, 3), (4, 6, 3), 3, 13), 75);
    assert_eq!(heuristic((1, 1), (2, 1), (0, 0, 0), (0, 0, 0), 255, 13), 169);
}

#[test]
fn heuristic_is_symmetric() {
    let a = heuristic((7, 2), (1, 9), (200, 10, 30), (5, 90, 250), 17, 4);
    let b = heuristic((1, 9), (7, 2), (5, 90, 250), (200, 10, 30), 17, 4);
    assert_eq!(a, b);
}

#[test]
fn heuristic_zero_when_in_place_with_right_color() {
    assert_eq!(heuristic((3, 3), (3, 3), (9, 8, 7), (9, 8, 7), 255, 13), 0);
}

#[test]
fn init_canvas_is_blank() {
    let canvas = PixelData::init_canvas(42);
    assert_eq!(canvas.len(), N);
    assert!(canvas.iter().all(|p| p.stroke_id == 0 && p.last_edited == 42));
}

#[test]
fn drawing_pixel_new_and_update() {
    let mut p = DrawingPixel::new(3, 4, 10);
    assert_eq!((p.src_x, p.src_y, p.h), (3, 4, 10));
    p.update_heuristic(-7);
    assert_eq!((p.src_x, p.src_y, p.h), (3, 4, -7));
}

#[test]
fn calc_drawing_heuristic_reads_source_color() {
    let mut colors = vec![(0u8, 0u8, 0u8); N];
    colors[2 * DRAWING_CANVAS_SIZE + 1] = (10, 20, 30);
    let p = DrawingPixel::new(1, 2, 0);
    // color distance 10^2+20^2+30^2 = 1400, weight 1; spatial distance 1, weight 2 -> 4
    assert_eq!(p.calc_drawing_heuristic((2, 2), (0, 0, 0), 1, &colors, 2), 1404);
}

fn identity_pixels() -> Vec<DrawingPixel> {
    (0..N)
        .map(|i| DrawingPixel::new((i % DRAWING_CANVAS_SIZE) as u16, (i / DRAWING_CANVAS_SIZE) as u16, 0))
        .collect()
}

#[test]
fn stroke_reward_when_neighbour_shares_stroke() {
    let mut data = PixelData::init_canvas(0);
    for (i, d) in data.iter_mut().enumerate() {
        d.stroke_id = i as u32 + 1; // every cell its own stroke
    }
    let pixels = identity_pixels();
    // no neighbour of slot 200 shares the stroke of the pixel at slot 5000
    assert_eq!(stroke_reward(200, 5000, &data, &pixels, 0), 0);
    // give the cell to the right of slot 200 the stroke of cell 5000
    data[201].stroke_id = data[5000].stroke_id;
    assert_eq!(stroke_reward(200, 5000, &data, &pixels, 0), STROKE_REWARD);
}

#[test]
fn stroke_reward_ignores_diagonals_and_off_canvas() {
    let mut data = PixelData::init_canvas(0);
    for (i, d) in data.iter_mut().enumerate() {
        d.stroke_id = i as u32 + 1;
    }
    let pixels = identity_pixels();
    // diagonal neighbour (1, 1) of the corner slot 0 does not count
    data[DRAWING_CANVAS_SIZE + 1].stroke_id = 999_999;
    data[300].stroke_id = 999_999;
    assert_eq!(stroke_reward(0, 300, &data, &pixels, 0), 0);
    // the cell below the corner does
    data[DRAWING_CANVAS_SIZE].stroke_id = 999_999;
    assert_eq!(stroke_reward(0, 300, &data, &pixels, 0), STROKE_REWARD);
    // the last slot has no right or lower neighbour; its left one counts
    data[N - 2].stroke_id = 999_999;
    assert_eq!(stroke_reward(N - 1, 300, &data, &pixels, 0), STROKE_REWARD);
}

#[test]
fn stroke_reward_on_blank_canvas_is_always_given() {
    let data = PixelData::init_canvas(0);
    let pixels = identity_pixels();
    assert_eq!(stroke_reward(0, 0, &data, &pixels, 7), STROKE_REWARD);
}
