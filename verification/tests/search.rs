use obamify::drawing::{DrawingPixel, PixelData, DRAWING_CANVAS_SIZE, STROKE_REWARD, stroke_reward};
use obamify::progress::{after_generation, ProgressMsg};
use obamify::search::{
    drawing_assignments, drawing_rng, init_drawing_pixels, run_generation,
    search_inputs_ok, try_exchange, DRAWING_SEED,
};

const N: usize = DRAWING_CANVAS_SIZE * DRAWING_CANVAS_SIZE;
const SIDE: u32 = DRAWING_CANVAS_SIZE as u32;

fn pseudo_colors(seed: u32) -> Vec<(u8, u8, u8)> {
    let mut x = seed;
    (0..N)
        .map(|_| {
            x = x.wrapping_mul(1664525).wrapping_add(1013904223);
            ((x >> 24) as u8, (x >> 16) as u8, (x >> 8) as u8)
        })
        .collect()
}

fn total(p: &[DrawingPixel]) -> i128 {
    p.iter().map(|q| q.h as i128).sum()
}

fn is_permutation(a: &[usize]) -> bool {
    let mut seen = vec![false; a.len()];
    for &v in a {
        if v >= a.len() || seen[v] {
            return false;
        }
        seen[v] = true;
    }
    true
}

#[test]
fn init_pixels_sit_on_their_own_cells() {
    let target = pseudo_colors(1);
    let colors = pseudo_colors(2);
    let weights = vec![255i64; N];
    let pixels = init_drawing_pixels(&target, &weights, &colors, SIDE, 13);
    assert_eq!(pixels.len(), N);
    for i in [0usize, 1, 127, 128, 5000, N - 1] {
        let p = pixels[i];
        assert_eq!(p.src_x as usize, i % DRAWING_CANVAS_SIZE);
        assert_eq!(p.src_y as usize, i / DRAWING_CANVAS_SIZE);
        let expected = p.calc_drawing_heuristic((p.src_x, p.src_y), target[i], 255, &colors, 13) + STROKE_REWARD;
        assert_eq!(p.h, expected);
    }
    let a = drawing_assignments(&pixels, SIDE);
    assert_eq!(a, (0..N).collect::<Vec<_>>());
}

#[test]
fn generation_keeps_a_permutation_and_lowers_the_cost() {
    let target = pseudo_colors(3);
    let colors = pseudo_colors(4);
    let weights = vec![255i64; N];
    let data = PixelData::init_canvas(0);
    let reach = vec![32u32; N];
    assert!(search_inputs_ok(&target, &weights, &colors, &data, &reach, 13));
    let mut pixels = init_drawing_pixels(&target, &weights, &colors, SIDE, 13);
    let mut rng = drawing_rng();
    let before = total(&pixels);
    let swaps = 4 * N;
    let made = run_generation(&mut pixels, &target, &weights, &colors, &data, &reach, SIDE, 13, 0, swaps, &mut rng);
    assert!(made <= swaps);
    assert!(made > 0);
    assert!(total(&pixels) <= before - made as i128);
    let a = drawing_assignments(&pixels, SIDE);
    assert!(is_permutation(&a));
    // every moved pixel stores its cost at its new slot, with the stroke reward
    for (slot, p) in pixels.iter().enumerate() {
        let pos = ((slot % DRAWING_CANVAS_SIZE) as u16, (slot / DRAWING_CANVAS_SIZE) as u16);
        let c = p.calc_drawing_heuristic(pos, target[slot], 255, &colors, 13);
        assert!(p.h == c || p.h == c + STROKE_REWARD);
    }
}

#[test]
fn generation_with_nothing_to_gain_changes_nothing() {
    let target = vec![(50u8, 50u8, 50u8); N];
    let colors = vec![(50u8, 50u8, 50u8); N];
    let weights = vec![255i64; N];
    let data = PixelData::init_canvas(0);
    let reach = vec![32u32; N];
    let mut pixels = init_drawing_pixels(&target, &weights, &colors, SIDE, 13);
    let mut rng = drawing_rng();
    let made = run_generation(&mut pixels, &target, &weights, &colors, &data, &reach, SIDE, 13, 0, N, &mut rng);
    assert_eq!(made, 0);
    assert_eq!(drawing_assignments(&pixels, SIDE), (0..N).collect::<Vec<_>>());
}

#[test]
fn generation_with_zero_reach_only_tries_a_pixel_against_itself() {
    let target = pseudo_colors(5);
    let colors = pseudo_colors(6);
    let weights = vec![255i64; N];
    let data = PixelData::init_canvas(0);
    let reach = vec![0u32; N];
    let mut pixels = init_drawing_pixels(&target, &weights, &colors, SIDE, 13);
    let mut rng = drawing_rng();
    let made = run_generation(&mut pixels, &target, &weights, &colors, &data, &reach, SIDE, 13, 0, N, &mut rng);
    assert_eq!(made, 0);
    assert_eq!(drawing_assignments(&pixels, SIDE), (0..N).collect::<Vec<_>>());
}

#[test]
fn generation_is_deterministic_for_a_seed() {
    let target = pseudo_colors(7);
    let colors = pseudo_colors(8);
    let weights = vec![100i64; N];
    let data = PixelData::init_canvas(0);
    let reach = vec![8u32; N];
    let mut p1 = init_drawing_pixels(&target, &weights, &colors, SIDE, 5);
    let mut p2 = p1.clone();
    let m1 = run_generation(&mut p1, &target, &weights, &colors, &data, &reach, SIDE, 5, 0, N, &mut drawing_rng());
    let mut rng = frand::Rand::with_seed(DRAWING_SEED);
    let m2 = run_generation(&mut p2, &target, &weights, &colors, &data, &reach, SIDE, 5, 0, N, &mut rng);
    assert_eq!(m1, m2);
    assert_eq!(drawing_assignments(&p1, SIDE), drawing_assignments(&p2, SIDE));
}

#[test]
fn many_generations_with_changing_colors_keep_a_permutation() {
    let target = pseudo_colors(21);
    let weights = vec![255i64; N];
    let mut data = PixelData::init_canvas(0);
    let mut pixels = init_drawing_pixels(&target, &weights, &pseudo_colors(22), SIDE, 13);
    let mut rng = drawing_rng();
    for generation in 0..6u32 {
        let colors = pseudo_colors(100 + generation);
        data[(generation as usize * 997) % N].stroke_id = generation + 1;
        let reach: Vec<u32> = (0..N).map(|i| ((i as u32 + generation) % 33)).collect();
        assert!(search_inputs_ok(&target, &weights, &colors, &data, &reach, 13));
        let made = run_generation(&mut pixels, &target, &weights, &colors, &data, &reach, SIDE, 13, generation, N, &mut rng);
        let (msgs, keep_going) = after_generation(&pixels, SIDE, made, 1, 1);
        assert!(keep_going);
        for msg in msgs {
            match msg {
                ProgressMsg::UpdateAssignments(a) => assert!(is_permutation(&a)),
                _ => panic!("only assignment reports expected"),
            }
        }
        assert!(is_permutation(&drawing_assignments(&pixels, SIDE)));
    }
}

#[test]
fn stroke_reward_absent_between_distinct_strokes() {
    // with a stroke of its own per cell, no neighbour shares a stroke
    let target = pseudo_colors(9);
    let colors = pseudo_colors(10);
    let weights = vec![255i64; N];
    let mut data = PixelData::init_canvas(0);
    for (i, d) in data.iter_mut().enumerate() {
        d.stroke_id = i as u32;
    }
    let pixels = init_drawing_pixels(&target, &weights, &colors, SIDE, 13);
    assert_eq!(stroke_reward(10, 10, &data, &pixels, 0), 0);
}

#[test]
fn search_inputs_rejected_when_out_of_range() {
    let target = vec![(0u8, 0u8, 0u8); N];
    let colors = vec![(0u8, 0u8, 0u8); N];
    let data = PixelData::init_canvas(0);
    let reach = vec![32u32; N];
    let weights = vec![255i64; N];
    assert!(search_inputs_ok(&target, &weights, &colors, &data, &reach, 13));
    assert!(!search_inputs_ok(&target, &weights, &colors, &data, &reach, i64::MAX));
    // proximity weights up to 11 956 694 keep every exchange within i64
    assert!(search_inputs_ok(&target, &weights, &colors, &data, &reach, 11_956_694));
    assert!(search_inputs_ok(&target, &weights, &colors, &data, &reach, -11_956_694));
    assert!(!search_inputs_ok(&target, &weights, &colors, &data, &reach, 11_956_695));
    assert!(!search_inputs_ok(&target, &weights, &colors, &data, &reach, -11_956_695));
    let mut negative = weights.clone();
    negative[5] = -80_000;
    assert!(search_inputs_ok(&target, &negative, &colors, &data, &reach, 13));
    let mut big = weights.clone();
    big[17] = i64::MAX;
    assert!(!search_inputs_ok(&target, &big, &colors, &data, &reach, 13));
    let mut far = reach.clone();
    far[3] = 40000;
    assert!(!search_inputs_ok(&target, &weights, &colors, &data, &far, 13));
    assert!(!search_inputs_ok(&target[1..], &weights, &colors, &data, &reach, 13));
}

#[test]
fn after_generation_reports_and_cancels() {
    let pixels: Vec<DrawingPixel> = (0..4u16).map(|i| DrawingPixel::new(i % 2, i / 2, 0)).collect();
    let (msgs, go_on) = after_generation(&pixels, 2, 3, 1, 1);
    assert!(go_on);
    assert_eq!(msgs.len(), 1);
    match &msgs[0] {
        ProgressMsg::UpdateAssignments(a) => assert_eq!(a.clone(), vec![0usize, 1, 2, 3]),
        _ => panic!("expected assignments"),
    }
    let (msgs, go_on) = after_generation(&pixels, 2, 0, 1, 2);
    assert!(!go_on);
    assert_eq!(msgs.len(), 1);
    assert!(matches!(msgs[0], ProgressMsg::Cancelled));
    let (msgs, go_on) = after_generation(&pixels, 2, 5, 1, 2);
    assert!(!go_on);
    assert_eq!(msgs.len(), 2);
    assert!(matches!(msgs[0], ProgressMsg::UpdateAssignments(_)));
    assert!(matches!(msgs[1], ProgressMsg::Cancelled));
    let (msgs, go_on) = after_generation(&pixels, 2, 0, 4, 4);
    assert!(go_on);
    assert!(msgs.is_empty());
}

#[test]
fn drawing_assignments_number_rows_by_side() {
    let pixels = vec![DrawingPixel::new(2, 1, 0), DrawingPixel::new(0, 0, 0), DrawingPixel::new(4, 3, 9)];
    assert_eq!(drawing_assignments(&pixels, 5), vec![7, 0, 19]);
}

#[test]
fn exchange_made_exactly_when_it_pays() {
    let mut target = vec![(0u8, 0u8, 0u8); N];
    let mut colors = vec![(0u8, 0u8, 0u8); N];
    // slot 0 wants white and cell 1 is white; slot 1 wants black and cell 0 is black
    target[0] = (255, 255, 255);
    colors[1] = (255, 255, 255);
    let weights = vec![1i64; N];
    let data = PixelData::init_canvas(0);
    let mut pixels = init_drawing_pixels(&target, &weights, &colors, SIDE, 0);
    assert_eq!(pixels[0].h, 3 * 255 * 255 + STROKE_REWARD);
    assert_eq!(pixels[1].h, 3 * 255 * 255 + STROKE_REWARD);
    let swapped = try_exchange(&mut pixels, 0, 1, &target, &weights, &colors, &data, 0, 0);
    assert!(swapped);
    assert_eq!((pixels[0].src_x, pixels[0].src_y, pixels[0].h), (1, 0, STROKE_REWARD));
    assert_eq!((pixels[1].src_x, pixels[1].src_y, pixels[1].h), (0, 0, STROKE_REWARD));
    let a = drawing_assignments(&pixels, SIDE);
    assert_eq!(&a[..3], &[1, 0, 2]);
    // exchanging back would cost more: nothing happens
    let before = drawing_assignments(&pixels, SIDE);
    assert!(!try_exchange(&mut pixels, 0, 1, &target, &weights, &colors, &data, 0, 0));
    assert_eq!(drawing_assignments(&pixels, SIDE), before);
    assert_eq!(pixels[0].h, STROKE_REWARD);
}

#[test]
fn generation_with_large_proximity_weight() {
    let target = pseudo_colors(11);
    let colors = pseudo_colors(12);
    let weights = vec![255i64; N];
    let data = PixelData::init_canvas(0);
    let reach = vec![32u32; N];
    assert!(search_inputs_ok(&target, &weights, &colors, &data, &reach, 11_956_694));
    let mut pixels = init_drawing_pixels(&target, &weights, &colors, SIDE, 11_956_694);
    let before = total(&pixels);
    let made = run_generation(&mut pixels, &target, &weights, &colors, &data, &reach, SIDE, 11_956_694, 0, N, &mut drawing_rng());
    assert!(total(&pixels) <= before - made as i128);
    assert!(is_permutation(&drawing_assignments(&pixels, SIDE)));
}
