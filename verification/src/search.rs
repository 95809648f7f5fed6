use vstd::prelude::*;
use crate::cost::{cost_spec, cost_fits, color_dist_sq, spatial_dist_sq};
use crate::rng::{rand_range_u64, rand_range_i16, rand_with_seed, seeded_rand, frand_u64_draw, frand_i16_draw};
use crate::drawing::{
    DrawingPixel, PixelData, DRAWING_CANVAS_SIZE, STROKE_REWARD, source_index, source_color,
    stroke_reward, stroke_reward_spec, neighbour, stroke_of_slot, touches_stroke,
    lemma_stroke_reward_looks_around_the_new_slot,
};

verus! {

/// Number of cells of the drawing canvas.
pub open spec fn canvas_cells() -> int {
    (DRAWING_CANVAS_SIZE * DRAWING_CANVAS_SIZE) as int
}

/// Largest cost the swap search handles: twice this, plus the stroke rewards,
/// is the widest sum of two cost differences an exchange compares, and it
/// must fit in an `i64`.
pub open spec fn cost_upper_limit() -> int {
    0x3fff_fff0_0000_0000
}

/// Largest magnitude of a negative cost (one from a negative color weight)
/// the swap search handles.
pub open spec fn cost_lower_limit() -> int {
    0x4_0000_0000
}

pub open spec fn abs(x: int) -> int {
    if x < 0 { -x } else { x }
}

pub open spec fn pos_part(x: int) -> int {
    if x > 0 { x } else { 0 }
}

pub open spec fn neg_part(x: int) -> int {
    if x < 0 { -x } else { 0 }
}

/// On a canvas-sized grid, every cost computed with this color weight and
/// this proximity weight lies between `-cost_lower_limit()` and
/// `cost_upper_limit()`.
pub open spec fn cost_bounded(weight: int, proximity_importance: int) -> bool {
    &&& 195075 * pos_part(weight) + 32258 * (abs(proximity_importance) * abs(proximity_importance))
        <= cost_upper_limit()
    &&& 195075 * neg_part(weight) <= cost_lower_limit()
}

/// The range every stored cost of a pixel lies in.
pub open spec fn h_in_bounds(h: int) -> bool {
    -cost_lower_limit() + STROKE_REWARD <= h <= cost_upper_limit()
}

/// The grid position of a slot of the canvas.
pub open spec fn slot_pos(slot: int) -> (u16, u16) {
    ((slot % (DRAWING_CANVAS_SIZE as int)) as u16, (slot / (DRAWING_CANVAS_SIZE as int)) as u16)
}

/// Pixels of a canvas: one per cell, each from a cell of the canvas, each
/// with a stored cost in range.
pub open spec fn pixels_ok(pixels: Seq<DrawingPixel>) -> bool {
    &&& pixels.len() == canvas_cells()
    &&& forall|i: int|
        0 <= i < pixels.len() ==> {
            &&& (#[trigger] pixels[i]).src_x < DRAWING_CANVAS_SIZE
            &&& pixels[i].src_y < DRAWING_CANVAS_SIZE
            &&& h_in_bounds(pixels[i].h as int)
        }
}

/// The per-slot tables of a drawing search all cover the canvas, and every
/// weight keeps the costs in range.
pub open spec fn tables_ok(
    target_pixels: Seq<(u8, u8, u8)>,
    weights: Seq<i64>,
    colors: Seq<(u8, u8, u8)>,
    pixel_data: Seq<PixelData>,
    proximity_importance: i64,
) -> bool {
    &&& target_pixels.len() == canvas_cells()
    &&& weights.len() == canvas_cells()
    &&& colors.len() == canvas_cells()
    &&& pixel_data.len() == canvas_cells()
    &&& forall|i: int|
        0 <= i < weights.len() ==> cost_bounded(#[trigger] weights[i] as int, proximity_importance as int)
}

/// The cost of pixel `p` placed on `slot`.
pub open spec fn slot_cost(
    p: DrawingPixel,
    slot: int,
    target_pixels: Seq<(u8, u8, u8)>,
    weights: Seq<i64>,
    colors: Seq<(u8, u8, u8)>,
    proximity_importance: i64,
) -> int {
    cost_spec(
        (p.src_x, p.src_y),
        slot_pos(slot),
        source_color(p, colors),
        target_pixels[slot],
        weights[slot] as int,
        proximity_importance as int,
    )
}

/// The stored cost of `p` is its cost at `slot`, with or without the stroke reward.
pub open spec fn h_matches_slot(
    p: DrawingPixel,
    slot: int,
    target_pixels: Seq<(u8, u8, u8)>,
    weights: Seq<i64>,
    colors: Seq<(u8, u8, u8)>,
    proximity_importance: i64,
) -> bool {
    let c = slot_cost(p, slot, target_pixels, weights, colors, proximity_importance);
    p.h == c || p.h == c + STROKE_REWARD
}

/// The source cells of a row of pixels.
pub open spec fn sources(pixels: Seq<DrawingPixel>) -> Seq<(u16, u16)> {
    pixels.map_values(|p: DrawingPixel| (p.src_x, p.src_y))
}

/// Every cell of the `side` by `side` grid is the source of exactly one pixel.
pub open spec fn sources_form_grid(pixels: Seq<DrawingPixel>, side: int) -> bool {
    &&& pixels.len() == side * side
    &&& forall|i: int| 0 <= i < pixels.len() ==> (#[trigger] pixels[i]).src_x < side && pixels[i].src_y < side
    &&& forall|i: int, j: int|
        0 <= i < pixels.len() && 0 <= j < pixels.len() && i != j ==> (#[trigger] pixels[i]).src_x
            != (#[trigger] pixels[j]).src_x || pixels[i].src_y != pixels[j].src_y
}

/// Sum of the stored costs.
pub open spec fn total_h(pixels: Seq<DrawingPixel>) -> int
    decreases pixels.len(),
{
    if pixels.len() == 0 {
        0
    } else {
        total_h(pixels.drop_last()) + pixels.last().h
    }
}

pub proof fn lemma_total_h_update(s: Seq<DrawingPixel>, i: int, v: DrawingPixel)
    requires
        0 <= i < s.len(),
    ensures
        total_h(s.update(i, v)) == total_h(s) - s[i].h + v.h,
    decreases s.len(),
{
    let t = s.update(i, v);
    if i == s.len() - 1 {
        assert(t.drop_last() =~= s.drop_last());
    } else {
        assert(t.drop_last() =~= s.drop_last().update(i, v));
        lemma_total_h_update(s.drop_last(), i, v);
    }
}

proof fn lemma_update_multiset<A>(s: Seq<A>, i: int, v: A)
    requires
        0 <= i < s.len(),
    ensures
        s.update(i, v).to_multiset() =~= s.to_multiset().remove(s[i]).insert(v),
{
    broadcast use vstd::seq_lib::group_to_multiset_ensures;
    broadcast use vstd::multiset::group_multiset_axioms;
    let t = s.update(i, v);
    assert(t.remove(i) =~= s.remove(i));
    assert(t.to_multiset().remove(v) =~= s.to_multiset().remove(s[i]));
    assert(t.contains(v)) by {
        assert(t[i] == v);
    }
    assert(t.to_multiset() =~= t.to_multiset().remove(v).insert(v));
}

proof fn lemma_swap_multiset<A>(s: Seq<A>, i: int, j: int)
    requires
        0 <= i < s.len(),
        0 <= j < s.len(),
    ensures
        s.update(i, s[j]).update(j, s[i]).to_multiset() =~= s.to_multiset(),
{
    broadcast use vstd::seq_lib::group_to_multiset_ensures;
    broadcast use vstd::multiset::group_multiset_axioms;
    if i == j {
        assert(s.update(i, s[j]).update(j, s[i]) =~= s);
    } else {
        let t = s.update(i, s[j]);
        lemma_update_multiset(s, i, s[j]);
        lemma_update_multiset(t, j, s[i]);
        assert(s.contains(s[i]));
        assert(t.contains(s[j])) by {
            assert(t[i] == s[j]);
        }
        assert(t[j] == s[j]);
        let m = s.to_multiset();
        assert(t.to_multiset().remove(s[j]).insert(s[i]) =~= m);
    }
}

proof fn lemma_cost_in_range(
    apos: (u16, u16),
    bpos: (u16, u16),
    a: (u8, u8, u8),
    b: (u8, u8, u8),
    w: int,
    pi: int,
)
    requires
        apos.0 < 128,
        apos.1 < 128,
        bpos.0 < 128,
        bpos.1 < 128,
        cost_bounded(w, pi),
    ensures
        cost_fits(apos, bpos, a, b, w, pi),
        -cost_lower_limit() <= cost_spec(apos, bpos, a, b, w, pi) <= cost_upper_limit(),
{
    let c = color_dist_sq(a, b);
    let s = spatial_dist_sq(apos, bpos);
    assert(0 <= c <= 195075) by (nonlinear_arith)
        requires
            c == (a.0 - b.0) * (a.0 - b.0) + (a.1 - b.1) * (a.1 - b.1) + (a.2 - b.2) * (a.2 - b.2),
            0 <= a.0 < 256,
            0 <= a.1 < 256,
            0 <= a.2 < 256,
            0 <= b.0 < 256,
            0 <= b.1 < 256,
            0 <= b.2 < 256,
    ;
    assert(0 <= s <= 32258) by (nonlinear_arith)
        requires
            s == (apos.0 - bpos.0) * (apos.0 - bpos.0) + (apos.1 - bpos.1) * (apos.1 - bpos.1),
            0 <= apos.0 < 128,
            0 <= apos.1 < 128,
            0 <= bpos.0 < 128,
            0 <= bpos.1 < 128,
    ;
    let wp = pos_part(w);
    let wn = neg_part(w);
    let api = abs(pi);
    assert(-195075 * wn <= c * w <= 195075 * wp) by (nonlinear_arith)
        requires
            0 <= c <= 195075,
            wp == pos_part(w),
            wn == neg_part(w),
    ;
    let p2 = api * api;
    assert(abs(s * pi) <= 32258 * api) by (nonlinear_arith)
        requires
            0 <= s <= 32258,
            api == abs(pi),
    ;
    let sp = s * pi;
    assert(0 <= sp * pi <= 32258 * p2) by (nonlinear_arith)
        requires
            0 <= s <= 32258,
            sp == s * pi,
            api == abs(pi),
            p2 == api * api,
    ;
    assert(0 <= 195075 * wp);
    assert(32258 * p2 <= cost_upper_limit());
    assert(api <= p2) by (nonlinear_arith)
        requires
            api == abs(pi),
            p2 == api * api,
    ;
    assert(-cost_upper_limit() <= sp <= cost_upper_limit());
    assert(cost_spec(apos, bpos, a, b, w, pi) == c * w + sp * pi);
}

proof fn lemma_stroke_reward_readable(newpos: int, oldpos: int, pixel_data: Seq<PixelData>, pixels: Seq<DrawingPixel>)
    requires
        pixels_ok(pixels),
        pixel_data.len() == canvas_cells(),
        0 <= newpos < canvas_cells(),
        0 <= oldpos < canvas_cells(),
    ensures
        crate::drawing::stroke_reward_readable(newpos, oldpos, pixel_data, pixels),
        stroke_reward_spec(newpos, oldpos, pixel_data, pixels) == 0
            || stroke_reward_spec(newpos, oldpos, pixel_data, pixels) == STROKE_REWARD,
{
    assert(pixels[oldpos].src_x < 128 && pixels[oldpos].src_y < 128);
    assert forall|k: int| 0 <= k < 4 implies match #[trigger] neighbour(newpos, k) {
        Some(n) => n < pixels.len() && source_index(pixels[n]) < pixel_data.len(),
        None => true,
    } by {
        match neighbour(newpos, k) {
            Some(n) => {
                assert(pixels[n].src_x < 128 && pixels[n].src_y < 128);
            },
            None => {},
        }
    }
}

/// The cost of moving the pixel at slot `from` onto slot `to`, stroke reward included.
pub open spec fn placed_cost(
    pixels: Seq<DrawingPixel>,
    from: int,
    to: int,
    target_pixels: Seq<(u8, u8, u8)>,
    weights: Seq<i64>,
    colors: Seq<(u8, u8, u8)>,
    pixel_data: Seq<PixelData>,
    proximity_importance: i64,
) -> int {
    slot_cost(pixels[from], to, target_pixels, weights, colors, proximity_importance)
        + stroke_reward_spec(to, from, pixel_data, pixels)
}

/// Tries to exchange the pixels at slots `apos` and `bpos`: the exchange is
/// made when it lowers the sum of their stored costs, and each then stores
/// its cost at its new slot plus its stroke reward there.
pub fn try_exchange(
    pixels: &mut Vec<DrawingPixel>,
    apos: usize,
    bpos: usize,
    target_pixels: &[(u8, u8, u8)],
    weights: &[i64],
    colors: &[(u8, u8, u8)],
    pixel_data: &[PixelData],
    proximity_importance: i64,
    frame_count: u32,
) -> (swapped: bool)
    requires
        pixels_ok(old(pixels)@),
        tables_ok(target_pixels@, weights@, colors@, pixel_data@, proximity_importance),
        apos < canvas_cells(),
        bpos < canvas_cells(),
    ensures
        ({
            let s = old(pixels)@;
            let on_b = placed_cost(s, apos as int, bpos as int, target_pixels@, weights@, colors@, pixel_data@, proximity_importance);
            let on_a = placed_cost(s, bpos as int, apos as int, target_pixels@, weights@, colors@, pixel_data@, proximity_importance);
            &&& swapped == (s[apos as int].h - on_a + s[bpos as int].h - on_b > 0)
            &&& swapped ==> final(pixels)@ == s.update(apos as int, DrawingPixel { h: on_a as i64, ..s[bpos as int] }).update(
                bpos as int,
                DrawingPixel { h: on_b as i64, ..s[apos as int] },
            )
        }),
        (final(pixels)@, swapped) == exchange_outcome(
            old(pixels)@,
            apos as int,
            bpos as int,
            target_pixels@,
            weights@,
            colors@,
            pixel_data@,
            proximity_importance,
        ),
        pixels_ok(final(pixels)@),
        sources(final(pixels)@).to_multiset() == sources(old(pixels)@).to_multiset(),
        sources_form_grid(old(pixels)@, DRAWING_CANVAS_SIZE as int) ==> sources_form_grid(
            final(pixels)@,
            DRAWING_CANVAS_SIZE as int,
        ),
        !swapped ==> final(pixels)@ == old(pixels)@,
        swapped ==> total_h(final(pixels)@) < total_h(old(pixels)@),
        swapped ==> h_matches_slot(final(pixels)@[apos as int], apos as int, target_pixels@, weights@, colors@, proximity_importance),
        swapped ==> h_matches_slot(final(pixels)@[bpos as int], bpos as int, target_pixels@, weights@, colors@, proximity_importance),
        forall|i: int|
            0 <= i < final(pixels)@.len() && i != apos && i != bpos ==> #[trigger] final(pixels)@[i]
                == old(pixels)@[i],
{
    let ghost s = pixels@;
    let ax = (apos % DRAWING_CANVAS_SIZE) as u16;
    let ay = (apos / DRAWING_CANVAS_SIZE) as u16;
    let bx = (bpos % DRAWING_CANVAS_SIZE) as u16;
    let by = (bpos / DRAWING_CANVAS_SIZE) as u16;
    assert(slot_pos(apos as int) == (ax, ay));
    assert(slot_pos(bpos as int) == (bx, by));
    let pa = pixels[apos];
    let pb = pixels[bpos];
    assert(pa.src_x < 128 && pa.src_y < 128 && h_in_bounds(pa.h as int));
    assert(pb.src_x < 128 && pb.src_y < 128 && h_in_bounds(pb.h as int));
    assert(cost_bounded(weights@[bpos as int] as int, proximity_importance as int));
    assert(cost_bounded(weights@[apos as int] as int, proximity_importance as int));
    proof {
        lemma_cost_in_range((pa.src_x, pa.src_y), (bx, by), source_color(pa, colors@), target_pixels@[bpos as int], weights@[bpos as int] as int, proximity_importance as int);
        lemma_cost_in_range((pb.src_x, pb.src_y), (ax, ay), source_color(pb, colors@), target_pixels@[apos as int], weights@[apos as int] as int, proximity_importance as int);
        lemma_stroke_reward_readable(bpos as int, apos as int, pixel_data@, s);
        lemma_stroke_reward_readable(apos as int, bpos as int, pixel_data@, s);
    }
    let t_a = target_pixels[apos];
    let t_b = target_pixels[bpos];
    let a_on_b_h = pa.calc_drawing_heuristic((bx, by), t_b, weights[bpos], colors, proximity_importance)
        + stroke_reward(bpos, apos, pixel_data, pixels.as_slice(), frame_count);
    let b_on_a_h = pb.calc_drawing_heuristic((ax, ay), t_a, weights[apos], colors, proximity_importance)
        + stroke_reward(apos, bpos, pixel_data, pixels.as_slice(), frame_count);
    let improvement_a = pa.h - b_on_a_h;
    let improvement_b = pb.h - a_on_b_h;
    if improvement_a + improvement_b > 0 {
        pixels.set(apos, pb);
        pixels.set(bpos, pa);
        pixels[apos].update_heuristic(b_on_a_h);
        pixels[bpos].update_heuristic(a_on_b_h);
        proof {
            let moved_b = DrawingPixel { h: b_on_a_h, ..pb };
            let moved_a = DrawingPixel { h: a_on_b_h, ..pa };
            let s1 = s.update(apos as int, moved_b);
            assert(pixels@ == s1.update(bpos as int, moved_a));
            assert(sources(pixels@) =~= sources(s).update(apos as int, sources(s)[bpos as int]).update(bpos as int, sources(s)[apos as int]));
            lemma_swap_multiset(sources(s), apos as int, bpos as int);
            lemma_total_h_update(s, apos as int, moved_b);
            lemma_total_h_update(s1, bpos as int, moved_a);
            if apos == bpos {
                assert(a_on_b_h == b_on_a_h);
            }
            if sources_form_grid(s, DRAWING_CANVAS_SIZE as int) {
                assert forall|i: int, j: int|
                    0 <= i < pixels@.len() && 0 <= j < pixels@.len() && i != j implies (#[trigger] pixels@[i]).src_x
                        != (#[trigger] pixels@[j]).src_x || pixels@[i].src_y != pixels@[j].src_y by {
                    let oi = if i == apos { bpos as int } else if i == bpos { apos as int } else { i };
                    let oj = if j == apos { bpos as int } else if j == bpos { apos as int } else { j };
                    if apos != bpos {
                        assert(pixels@[i].src_x == s[oi].src_x && pixels@[i].src_y == s[oi].src_y);
                        assert(pixels@[j].src_x == s[oj].src_x && pixels@[j].src_y == s[oj].src_y);
                    }
                }
            }
        }
        true
    } else {
        false
    }
}

/// How far from its own cell the search may move a pixel: every reach keeps
/// the shifted coordinate within `i16`.
pub open spec fn reaches_ok(reach: Seq<u32>) -> bool {
    &&& reach.len() == canvas_cells()
    &&& forall|i: int| 0 <= i < reach.len() ==> #[trigger] reach[i] + DRAWING_CANVAS_SIZE <= i16::MAX
}

fn clamp_coord(v: i16, hi: i16) -> (r: i16)
    requires
        0 <= hi,
    ensures
        r == (if v < 0 { 0 } else if v > hi { hi } else { v }),
{
    if v < 0 {
        0
    } else if v > hi {
        hi
    } else {
        v
    }
}

/// What trying to exchange the pixels at slots `a` and `b` gives: the
/// exchange, each pixel then storing its cost at its new slot with the stroke
/// reward there, when that lowers the sum of their stored costs; otherwise
/// the pixels unchanged. The flag says whether the exchange was made.
pub open spec fn exchange_outcome(
    s: Seq<DrawingPixel>,
    a: int,
    b: int,
    target_pixels: Seq<(u8, u8, u8)>,
    weights: Seq<i64>,
    colors: Seq<(u8, u8, u8)>,
    pixel_data: Seq<PixelData>,
    proximity_importance: i64,
) -> (Seq<DrawingPixel>, bool) {
    let on_b = placed_cost(s, a, b, target_pixels, weights, colors, pixel_data, proximity_importance);
    let on_a = placed_cost(s, b, a, target_pixels, weights, colors, pixel_data, proximity_importance);
    if s[a].h - on_a + s[b].h - on_b > 0 {
        (
            s.update(a, DrawingPixel { h: on_a as i64, ..s[b] }).update(
                b,
                DrawingPixel { h: on_b as i64, ..s[a] },
            ),
            true,
        )
    } else {
        (s, false)
    }
}

/// What the pixel `p` costs on slot `t`: the squared distance between the
/// color of the cell it came from and the color wanted at `t`, times the
/// weight of slot `t`, plus the squared distance between that cell and `t`
/// times the square of the proximity weight.
pub open spec fn cost_on_slot(
    p: DrawingPixel,
    t: int,
    target_pixels: Seq<(u8, u8, u8)>,
    weights: Seq<i64>,
    colors: Seq<(u8, u8, u8)>,
    proximity_importance: i64,
) -> int {
    let c = colors[p.src_y * 128 + p.src_x];
    let g = target_pixels[t];
    let dx = p.src_x - t % 128;
    let dy = p.src_y - t / 128;
    let color = (c.0 - g.0) * (c.0 - g.0) + (c.1 - g.1) * (c.1 - g.1) + (c.2 - g.2) * (c.2 - g.2);
    weights[t] * color + proximity_importance * proximity_importance * (dx * dx + dy * dy)
}

/// What the pixel now at slot `from` would store on slot `to`: its cost
/// there, plus `STROKE_REWARD` when a slot next to `to` holds a pixel of its
/// own stroke.
pub open spec fn cost_with_reward_on_slot(
    s: Seq<DrawingPixel>,
    from: int,
    to: int,
    target_pixels: Seq<(u8, u8, u8)>,
    weights: Seq<i64>,
    colors: Seq<(u8, u8, u8)>,
    pixel_data: Seq<PixelData>,
    proximity_importance: i64,
) -> int {
    cost_on_slot(s[from], to, target_pixels, weights, colors, proximity_importance) + if touches_stroke(
        to,
        stroke_of_slot(from, pixel_data, s),
        pixel_data,
        s,
    ) {
        STROKE_REWARD as int
    } else {
        0
    }
}

/// An exchange of the pixels at slots `a` and `b` charges each pixel at its
/// destination: the pixel from `a` is costed on `b`, with the weight and the
/// wanted color of `b` and the stroke reward looked up around `b`, and the
/// pixel from `b` likewise on `a`. The two pixels change places exactly when
/// the sum of their stored costs exceeds the sum of these, and each then
/// stores its cost at its destination; otherwise nothing changes.
pub proof fn lemma_exchange_charges_the_destination(
    s: Seq<DrawingPixel>,
    a: int,
    b: int,
    target_pixels: Seq<(u8, u8, u8)>,
    weights: Seq<i64>,
    colors: Seq<(u8, u8, u8)>,
    pixel_data: Seq<PixelData>,
    proximity_importance: i64,
)
    requires
        s.len() == canvas_cells(),
        0 <= a < canvas_cells(),
        0 <= b < canvas_cells(),
    ensures
        ({
            let on_b = cost_with_reward_on_slot(s, a, b, target_pixels, weights, colors, pixel_data, proximity_importance);
            let on_a = cost_with_reward_on_slot(s, b, a, target_pixels, weights, colors, pixel_data, proximity_importance);
            let out = exchange_outcome(s, a, b, target_pixels, weights, colors, pixel_data, proximity_importance);
            &&& out.1 == (s[a].h + s[b].h - on_a - on_b > 0)
            &&& out.1 ==> out.0 == s.update(
                a,
                DrawingPixel { src_x: s[b].src_x, src_y: s[b].src_y, h: on_a as i64 },
            ).update(b, DrawingPixel { src_x: s[a].src_x, src_y: s[a].src_y, h: on_b as i64 })
            &&& !out.1 ==> out.0 == s
        }),
{
    lemma_placed_cost_is_cost_with_reward(s, a, b, target_pixels, weights, colors, pixel_data, proximity_importance);
    lemma_placed_cost_is_cost_with_reward(s, b, a, target_pixels, weights, colors, pixel_data, proximity_importance);
}

proof fn lemma_placed_cost_is_cost_with_reward(
    s: Seq<DrawingPixel>,
    from: int,
    to: int,
    target_pixels: Seq<(u8, u8, u8)>,
    weights: Seq<i64>,
    colors: Seq<(u8, u8, u8)>,
    pixel_data: Seq<PixelData>,
    proximity_importance: i64,
)
    requires
        0 <= to < canvas_cells(),
    ensures
        placed_cost(s, from, to, target_pixels, weights, colors, pixel_data, proximity_importance)
            == cost_with_reward_on_slot(s, from, to, target_pixels, weights, colors, pixel_data, proximity_importance),
{
    lemma_stroke_reward_looks_around_the_new_slot(to, from, pixel_data, s);
    let p = s[from];
    let c = colors[p.src_y * 128 + p.src_x];
    let g = target_pixels[to];
    let w = weights[to] as int;
    let pi = proximity_importance as int;
    let pos = slot_pos(to);
    assert(pos.0 == to % 128 && pos.1 == to / 128);
    let color = color_dist_sq(c, g);
    let dist = spatial_dist_sq((p.src_x, p.src_y), pos);
    assert(color * w == w * color) by (nonlinear_arith);
    assert(dist * pi * pi == pi * pi * dist) by (nonlinear_arith);
}

/// Whether an exchange of the pixels at slots `a` and `b` is made, and what
/// they then store, depends on the weights of slots `a` and `b` alone: the
/// weights of the cells the pixels came from play no part.
pub proof fn lemma_exchange_reads_only_its_slots_weights(
    s: Seq<DrawingPixel>,
    a: int,
    b: int,
    target_pixels: Seq<(u8, u8, u8)>,
    weights: Seq<i64>,
    other_weights: Seq<i64>,
    colors: Seq<(u8, u8, u8)>,
    pixel_data: Seq<PixelData>,
    proximity_importance: i64,
)
    requires
        s.len() == canvas_cells(),
        0 <= a < canvas_cells(),
        0 <= b < canvas_cells(),
        weights[a] == other_weights[a],
        weights[b] == other_weights[b],
    ensures
        exchange_outcome(s, a, b, target_pixels, weights, colors, pixel_data, proximity_importance)
            == exchange_outcome(s, a, b, target_pixels, other_weights, colors, pixel_data, proximity_importance),
{
    lemma_exchange_charges_the_destination(s, a, b, target_pixels, weights, colors, pixel_data, proximity_importance);
    lemma_exchange_charges_the_destination(s, a, b, target_pixels, other_weights, colors, pixel_data, proximity_importance);
}

/// `v` clamped to `0..=hi`.
pub open spec fn clamp_int(v: int, hi: int) -> int {
    if v < 0 {
        0
    } else if v > hi {
        hi
    } else {
        v
    }
}

/// One attempt of the search for the draw `pick`: slot `a = pick.0`, and the
/// offsets `pick.1`, `pick.2` that, added to its column and row and clamped
/// to the canvas, give slot `b`. The pair is skipped when `b` lies farther
/// than `reach[b]` from `a` in either coordinate; otherwise the exchange is tried.
pub open spec fn attempt_outcome(
    s: Seq<DrawingPixel>,
    pick: (int, int, int),
    target_pixels: Seq<(u8, u8, u8)>,
    weights: Seq<i64>,
    colors: Seq<(u8, u8, u8)>,
    pixel_data: Seq<PixelData>,
    reach: Seq<u32>,
    proximity_importance: i64,
) -> (Seq<DrawingPixel>, bool) {
    let c = DRAWING_CANVAS_SIZE as int;
    let a = pick.0;
    let ax = a % c;
    let ay = a / c;
    let bx = clamp_int(ax + pick.1, c - 1);
    let by = clamp_int(ay + pick.2, c - 1);
    let b = by * c + bx;
    if abs(bx - ax) > reach[b] || abs(by - ay) > reach[b] {
        (s, false)
    } else {
        exchange_outcome(s, a, b, target_pixels, weights, colors, pixel_data, proximity_importance)
    }
}

/// An attempt for the draw `(a, ox, oy)` aims at the slot `b` that lies `ox`
/// columns and `oy` rows away from `a`, each coordinate held to the canvas.
/// It leaves the pixels as they are exactly when `b` lies farther from `a`,
/// in columns or in rows, than the reach of `b` itself; otherwise it is the
/// exchange of the pixels at `a` and `b`.
pub proof fn lemma_attempt_respects_the_reach_of_its_destination(
    s: Seq<DrawingPixel>,
    pick: (int, int, int),
    target_pixels: Seq<(u8, u8, u8)>,
    weights: Seq<i64>,
    colors: Seq<(u8, u8, u8)>,
    pixel_data: Seq<PixelData>,
    reach: Seq<u32>,
    proximity_importance: i64,
)
    requires
        0 <= pick.0 < canvas_cells(),
    ensures
        ({
            let ax = pick.0 % 128;
            let ay = pick.0 / 128;
            let tx = ax + pick.1;
            let ty = ay + pick.2;
            let bx = if tx < 0 { 0 } else if tx > 127 { 127 } else { tx };
            let by = if ty < 0 { 0 } else if ty > 127 { 127 } else { ty };
            let b = by * 128 + bx;
            let r = reach[b] as int;
            let too_far = bx - ax > r || ax - bx > r || by - ay > r || ay - by > r;
            &&& 0 <= b < canvas_cells()
            &&& attempt_outcome(s, pick, target_pixels, weights, colors, pixel_data, reach, proximity_importance)
                == if too_far {
                (s, false)
            } else {
                exchange_outcome(s, pick.0, b, target_pixels, weights, colors, pixel_data, proximity_importance)
            }
        }),
{
}

/// Every draw names a slot of the canvas and offsets within that slot's reach.
pub open spec fn picks_in_range(picks: Seq<(int, int, int)>, reach: Seq<u32>) -> bool {
    forall|i: int|
        0 <= i < picks.len() ==> {
            &&& 0 <= (#[trigger] picks[i]).0 < canvas_cells()
            &&& -(reach[picks[i].0] as int) <= picks[i].1 <= reach[picks[i].0]
            &&& -(reach[picks[i].0] as int) <= picks[i].2 <= reach[picks[i].0]
        }
}

/// The pixels and the number of exchanges after the attempts for `picks`, in order.
pub open spec fn attempts_outcome(
    s0: Seq<DrawingPixel>,
    picks: Seq<(int, int, int)>,
    target_pixels: Seq<(u8, u8, u8)>,
    weights: Seq<i64>,
    colors: Seq<(u8, u8, u8)>,
    pixel_data: Seq<PixelData>,
    reach: Seq<u32>,
    proximity_importance: i64,
) -> (Seq<DrawingPixel>, int)
    decreases picks.len(),
{
    if picks.len() == 0 {
        (s0, 0)
    } else {
        let prev = attempts_outcome(
            s0,
            picks.drop_last(),
            target_pixels,
            weights,
            colors,
            pixel_data,
            reach,
            proximity_importance,
        );
        let step = attempt_outcome(
            prev.0,
            picks.last(),
            target_pixels,
            weights,
            colors,
            pixel_data,
            reach,
            proximity_importance,
        );
        (step.0, prev.1 + if step.1 { 1int } else { 0 })
    }
}

proof fn lemma_exchange_keeps_grid(
    s: Seq<DrawingPixel>,
    a: int,
    b: int,
    target_pixels: Seq<(u8, u8, u8)>,
    weights: Seq<i64>,
    colors: Seq<(u8, u8, u8)>,
    pixel_data: Seq<PixelData>,
    proximity_importance: i64,
    side: int,
)
    requires
        sources_form_grid(s, side),
        0 <= a < s.len(),
        0 <= b < s.len(),
    ensures
        sources_form_grid(
            exchange_outcome(s, a, b, target_pixels, weights, colors, pixel_data, proximity_importance).0,
            side,
        ),
{
    let t = exchange_outcome(s, a, b, target_pixels, weights, colors, pixel_data, proximity_importance).0;
    if t != s {
        // slot i of t holds the source of slot fi of s, fi the transposition of a and b applied to i
        assert forall|i: int, j: int|
            0 <= i < t.len() && 0 <= j < t.len() && i != j implies (#[trigger] t[i]).src_x
                != (#[trigger] t[j]).src_x || t[i].src_y != t[j].src_y by {
            let fi = if i == b { a } else if i == a { b } else { i };
            let fj = if j == b { a } else if j == a { b } else { j };
            assert(t[i].src_x == s[fi].src_x && t[i].src_y == s[fi].src_y);
            assert(t[j].src_x == s[fj].src_x && t[j].src_y == s[fj].src_y);
            if a != b {
                assert(fi != fj);
                assert(s[fi].src_x != s[fj].src_x || s[fi].src_y != s[fj].src_y);
            } else {
                assert(fi == i && fj == j);
                assert(s[i].src_x != s[j].src_x || s[i].src_y != s[j].src_y);
            }
        }
        assert forall|i: int| 0 <= i < t.len() implies (#[trigger] t[i]).src_x < side && t[i].src_y < side by {
            let fi = if i == b { a } else if i == a { b } else { i };
            assert(t[i].src_x == s[fi].src_x && t[i].src_y == s[fi].src_y);
            assert(s[fi].src_x < side && s[fi].src_y < side);
        }
    }
}

proof fn lemma_attempts_keep_grid(
    s0: Seq<DrawingPixel>,
    picks: Seq<(int, int, int)>,
    target_pixels: Seq<(u8, u8, u8)>,
    weights: Seq<i64>,
    colors: Seq<(u8, u8, u8)>,
    pixel_data: Seq<PixelData>,
    reach: Seq<u32>,
    proximity_importance: i64,
)
    requires
        sources_form_grid(s0, DRAWING_CANVAS_SIZE as int),
        picks_in_range(picks, reach),
    ensures
        sources_form_grid(
            attempts_outcome(s0, picks, target_pixels, weights, colors, pixel_data, reach, proximity_importance).0,
            DRAWING_CANVAS_SIZE as int,
        ),
    decreases picks.len(),
{
    if picks.len() > 0 {
        let rest = picks.drop_last();
        assert(picks_in_range(rest, reach)) by {
            assert forall|i: int| 0 <= i < rest.len() implies {
                &&& 0 <= (#[trigger] rest[i]).0 < canvas_cells()
                &&& -(reach[rest[i].0] as int) <= rest[i].1 <= reach[rest[i].0]
                &&& -(reach[rest[i].0] as int) <= rest[i].2 <= reach[rest[i].0]
            } by {
                assert(rest[i] == picks[i]);
            }
        }
        lemma_attempts_keep_grid(s0, rest, target_pixels, weights, colors, pixel_data, reach, proximity_importance);
        let prev = attempts_outcome(s0, rest, target_pixels, weights, colors, pixel_data, reach, proximity_importance).0;
        let pick = picks.last();
        assert(picks[picks.len() - 1] == pick);
        let c = DRAWING_CANVAS_SIZE as int;
        let ax = pick.0 % c;
        let ay = pick.0 / c;
        let bx = clamp_int(ax + pick.1, c - 1);
        let by = clamp_int(ay + pick.2, c - 1);
        assert(0 <= by * c + bx < canvas_cells()) by (nonlinear_arith)
            requires
                0 <= bx < c,
                0 <= by < c,
                c == 128,
        ;
        lemma_exchange_keeps_grid(prev, pick.0, by * c + bx, target_pixels, weights, colors, pixel_data, proximity_importance, c);
    }
}

/// The pixels after a run of generations of the drawing search from `s0`:
/// generation `k` reads the canvas colors `gens[k].0`, the stroke data
/// `gens[k].1` and the reaches `gens[k].2`, and makes the attempts for the
/// draws `gens[k].3`.
pub open spec fn generations_outcome(
    s0: Seq<DrawingPixel>,
    target_pixels: Seq<(u8, u8, u8)>,
    weights: Seq<i64>,
    proximity_importance: i64,
    gens: Seq<(Seq<(u8, u8, u8)>, Seq<PixelData>, Seq<u32>, Seq<(int, int, int)>)>,
) -> Seq<DrawingPixel>
    decreases gens.len(),
{
    if gens.len() == 0 {
        s0
    } else {
        let g = gens.last();
        attempts_outcome(
            generations_outcome(s0, target_pixels, weights, proximity_importance, gens.drop_last()),
            g.3,
            target_pixels,
            weights,
            g.0,
            g.1,
            g.2,
            proximity_importance,
        ).0
    }
}

/// However many generations the drawing search runs, whatever colors, stroke
/// data and reaches each reads, and whatever in-range draws each makes, every
/// cell of the canvas stays the source of exactly one pixel, so the cells the
/// pixels report, slot by slot, always form a permutation.
pub proof fn lemma_generations_keep_a_permutation(
    s0: Seq<DrawingPixel>,
    target_pixels: Seq<(u8, u8, u8)>,
    weights: Seq<i64>,
    proximity_importance: i64,
    gens: Seq<(Seq<(u8, u8, u8)>, Seq<PixelData>, Seq<u32>, Seq<(int, int, int)>)>,
)
    requires
        sources_form_grid(s0, DRAWING_CANVAS_SIZE as int),
        forall|k: int| 0 <= k < gens.len() ==> picks_in_range(#[trigger] gens[k].3, gens[k].2),
    ensures
        sources_form_grid(
            generations_outcome(s0, target_pixels, weights, proximity_importance, gens),
            DRAWING_CANVAS_SIZE as int,
        ),
        is_permutation(
            generations_outcome(s0, target_pixels, weights, proximity_importance, gens).map_values(
                |p: DrawingPixel| assignment_of(p, DRAWING_CANVAS_SIZE as int),
            ),
        ),
    decreases gens.len(),
{
    if gens.len() > 0 {
        let rest = gens.drop_last();
        assert forall|k: int| 0 <= k < rest.len() implies picks_in_range(#[trigger] rest[k].3, rest[k].2) by {
            assert(rest[k] == gens[k]);
        }
        lemma_generations_keep_a_permutation(s0, target_pixels, weights, proximity_importance, rest);
        let g = gens.last();
        assert(g == gens[gens.len() - 1]);
        lemma_attempts_keep_grid(
            generations_outcome(s0, target_pixels, weights, proximity_importance, rest),
            g.3,
            target_pixels,
            weights,
            g.0,
            g.1,
            g.2,
            proximity_importance,
        );
    }
    lemma_grid_assignments_are_permutation(
        generations_outcome(s0, target_pixels, weights, proximity_importance, gens),
        DRAWING_CANVAS_SIZE as int,
    );
}

/// The draw of one attempt with generator `rng`: a slot from the whole
/// canvas, then a column offset and a row offset, each from `-m..m + 1` where
/// `m` is the reach of the drawn slot; and the generator after the three draws.
pub open spec fn draw_pick(rng: frand::Rand, reach: Seq<u32>) -> ((int, int, int), frand::Rand) {
    let (a, r1) = frand_u64_draw(rng, 0, canvas_cells() as u64);
    let m = reach[a as int] as int;
    let (ox, r2) = frand_i16_draw(r1, (-m) as i16, (m + 1) as i16);
    let (oy, r3) = frand_i16_draw(r2, (-m) as i16, (m + 1) as i16);
    ((a as int, ox as int, oy as int), r3)
}

/// The draws of the first `k` attempts with generator `rng`, in order, and the
/// generator after them.
pub open spec fn drawn_picks(rng: frand::Rand, k: nat, reach: Seq<u32>) -> (Seq<(int, int, int)>, frand::Rand)
    decreases k,
{
    if k == 0 {
        (Seq::empty(), rng)
    } else {
        let prev = drawn_picks(rng, (k - 1) as nat, reach);
        let next = draw_pick(prev.1, reach);
        (prev.0.push(next.0), next.1)
    }
}

/// One generation of the drawing search: `swaps` attempts, each drawing from
/// `rng` a slot `a` and a slot `b` within `reach[a]` of it in both
/// coordinates (clamped to the canvas), skipping the pair when `b` lies
/// farther than `reach[b]` from `a`, and otherwise exchanging the two pixels
/// when that lowers the sum of their costs. Returns the number of exchanges.
/// The outcome is determined by the inputs and the generator's state.
pub fn run_generation(
    pixels: &mut Vec<DrawingPixel>,
    target_pixels: &[(u8, u8, u8)],
    weights: &[i64],
    colors: &[(u8, u8, u8)],
    pixel_data: &[PixelData],
    reach: &[u32],
    sidelen: u32,
    proximity_importance: i64,
    frame_count: u32,
    swaps: usize,
    rng: &mut frand::Rand,
) -> (swaps_made: usize)
    requires
        sidelen == DRAWING_CANVAS_SIZE,
        pixels_ok(old(pixels)@),
        tables_ok(target_pixels@, weights@, colors@, pixel_data@, proximity_importance),
        reaches_ok(reach@),
    ensures
        pixels_ok(final(pixels)@),
        sources(final(pixels)@).to_multiset() == sources(old(pixels)@).to_multiset(),
        sources_form_grid(old(pixels)@, DRAWING_CANVAS_SIZE as int) ==> sources_form_grid(
            final(pixels)@,
            DRAWING_CANVAS_SIZE as int,
        ),
        ({
            let drawn = drawn_picks(*old(rng), swaps as nat, reach@);
            &&& *final(rng) == drawn.1
            &&& picks_in_range(drawn.0, reach@)
            &&& attempts_outcome(
                old(pixels)@,
                drawn.0,
                target_pixels@,
                weights@,
                colors@,
                pixel_data@,
                reach@,
                proximity_importance,
            ) == (final(pixels)@, swaps_made as int)
        }),
        swaps_made <= swaps,
        total_h(final(pixels)@) <= total_h(old(pixels)@) - swaps_made,
        forall|i: int|
            0 <= i < final(pixels)@.len() ==> #[trigger] final(pixels)@[i] == old(pixels)@[i]
                || h_matches_slot(final(pixels)@[i], i, target_pixels@, weights@, colors@, proximity_importance),
{
    let ghost s0 = pixels@;
    let n = pixels.len();
    let side = sidelen as u16;
    let mut swaps_made: usize = 0;
    let mut attempt: usize = 0;
    let ghost mut picks: Seq<(int, int, int)> = Seq::empty();
    let ghost rng0 = *rng;
    while attempt < swaps
        invariant
            attempt <= swaps,
            picks.len() == attempt,
            drawn_picks(rng0, attempt as nat, reach@) == (picks, *rng),
            picks_in_range(picks, reach@),
            attempts_outcome(
                s0,
                picks,
                target_pixels@,
                weights@,
                colors@,
                pixel_data@,
                reach@,
                proximity_importance,
            ) == (pixels@, swaps_made as int),
            swaps_made <= attempt,
            n == canvas_cells(),
            side == DRAWING_CANVAS_SIZE,
            pixels_ok(pixels@),
            tables_ok(target_pixels@, weights@, colors@, pixel_data@, proximity_importance),
            reaches_ok(reach@),
            sources(pixels@).to_multiset() == sources(s0).to_multiset(),
            sources_form_grid(s0, DRAWING_CANVAS_SIZE as int) ==> sources_form_grid(
                pixels@,
                DRAWING_CANVAS_SIZE as int,
            ),
            total_h(pixels@) <= total_h(s0) - swaps_made,
            forall|i: int|
                0 <= i < pixels@.len() ==> #[trigger] pixels@[i] == s0[i]
                    || h_matches_slot(pixels@[i], i, target_pixels@, weights@, colors@, proximity_importance),
        decreases swaps - attempt,
    {
        let ghost rng_before = *rng;
        proof {
            assert(drawn_picks(rng0, (attempt + 1) as nat, reach@) == (
                picks.push(draw_pick(rng_before, reach@).0),
                draw_pick(rng_before, reach@).1,
            ));
        }
        attempt += 1;
        let apos = rand_range_u64(rng, 0, n as u64) as usize;
        let ax = apos as u16 % side;
        let ay = apos as u16 / side;
        let max_dist_a = reach[apos];
        let off_x = rand_range_i16(rng, -(max_dist_a as i16), max_dist_a as i16 + 1);
        let bx = clamp_coord(ax as i16 + off_x, side as i16 - 1) as u16;
        let off_y = rand_range_i16(rng, -(max_dist_a as i16), max_dist_a as i16 + 1);
        let by = clamp_coord(ay as i16 + off_y, side as i16 - 1) as u16;
        let bpos = by as usize * side as usize + bx as usize;
        let max_dist_b = reach[bpos];
        let ghost prev_picks = picks;
        let ghost pick = (apos as int, off_x as int, off_y as int);
        assert(draw_pick(rng_before, reach@) == (pick, *rng));
        let ghost before_attempt = pixels@;
        proof {
            assert(ax == apos as int % 128);
            assert(ay == apos as int / 128);
            assert(bx == clamp_int(ax + off_x, 127));
            assert(by == clamp_int(ay + off_y, 127));
            picks = picks.push(pick);
            assert(picks.drop_last() =~= prev_picks);
            assert(picks.last() == pick);
            assert(picks_in_range(picks, reach@)) by {
                assert forall|i: int| 0 <= i < picks.len() implies {
                    &&& 0 <= (#[trigger] picks[i]).0 < canvas_cells()
                    &&& -(reach@[picks[i].0] as int) <= picks[i].1 <= reach@[picks[i].0]
                    &&& -(reach@[picks[i].0] as int) <= picks[i].2 <= reach@[picks[i].0]
                } by {
                    if i < prev_picks.len() {
                        assert(picks[i] == prev_picks[i]);
                    }
                }
            }
        }
        let dx = bx as i32 - ax as i32;
        let dy = by as i32 - ay as i32;
        let adx = if dx < 0 { -dx } else { dx };
        let ady = if dy < 0 { -dy } else { dy };
        if !(adx > max_dist_b as i32 || ady > max_dist_b as i32) {
            let ghost before = pixels@;
            let swapped = try_exchange(
                pixels,
                apos,
                bpos,
                target_pixels,
                weights,
                colors,
                pixel_data,
                proximity_importance,
                frame_count,
            );
            if swapped {
                swaps_made += 1;
            }
            proof {
                assert(attempt_outcome(before_attempt, pick, target_pixels@, weights@, colors@, pixel_data@, reach@, proximity_importance)
                    == (pixels@, swapped));
                assert forall|i: int| 0 <= i < pixels@.len() implies #[trigger] pixels@[i] == s0[i]
                    || h_matches_slot(pixels@[i], i, target_pixels@, weights@, colors@, proximity_importance) by {
                    if i != apos && i != bpos {
                        assert(pixels@[i] == before[i]);
                    }
                }
            }
        } else {
            proof {
                assert(attempt_outcome(before_attempt, pick, target_pixels@, weights@, colors@, pixel_data@, reach@, proximity_importance)
                    == (pixels@, false));
            }
        }
    }
    assert(attempts_outcome(s0, picks, target_pixels@, weights@, colors@, pixel_data@, reach@, proximity_importance)
        == (pixels@, swaps_made as int));
    swaps_made
}

fn cost_bounded_exec(weight: i64, proximity_importance: i64) -> (r: bool)
    ensures
        r == cost_bounded(weight as int, proximity_importance as int),
{
    let wp: i128 = if weight > 0 { weight as i128 } else { 0 };
    let wn: i128 = if weight < 0 { -(weight as i128) } else { 0 };
    let api: i128 = if proximity_importance < 0 { -(proximity_importance as i128) } else { proximity_importance as i128 };
    if api > 0x1_0000_0000 {
        assert(32258 * (api * api) > cost_upper_limit()) by (nonlinear_arith)
            requires api > 0x1_0000_0000;
        assert(195075 * wp >= 0);
        return false;
    }
    assert(0 <= api * api <= 0x1_0000_0000 * 0x1_0000_0000) by (nonlinear_arith)
        requires 0 <= api <= 0x1_0000_0000;
    let p2 = api * api;
    195075 * wp + 32258 * p2 <= 0x3fff_fff0_0000_0000 && 195075 * wn <= 0x4_0000_0000
}

/// Whether the tables and reaches meet what `init_drawing_pixels` and
/// `run_generation` need of them.
pub fn search_inputs_ok(
    target_pixels: &[(u8, u8, u8)],
    weights: &[i64],
    colors: &[(u8, u8, u8)],
    pixel_data: &[PixelData],
    reach: &[u32],
    proximity_importance: i64,
) -> (ok: bool)
    ensures
        ok == (tables_ok(target_pixels@, weights@, colors@, pixel_data@, proximity_importance) && reaches_ok(reach@)),
{
    let n = DRAWING_CANVAS_SIZE * DRAWING_CANVAS_SIZE;
    if target_pixels.len() != n || weights.len() != n || colors.len() != n || pixel_data.len() != n
        || reach.len() != n {
        return false;
    }
    let mut i: usize = 0;
    while i < n
        invariant
            i <= n,
            n == canvas_cells(),
            weights@.len() == n,
            reach@.len() == n,
            forall|j: int| 0 <= j < i ==> cost_bounded(#[trigger] weights@[j] as int, proximity_importance as int),
            forall|j: int| 0 <= j < i ==> #[trigger] reach@[j] + DRAWING_CANVAS_SIZE <= i16::MAX,
        decreases n - i,
    {
        if !cost_bounded_exec(weights[i], proximity_importance) {
            return false;
        }
        if reach[i] as u64 + DRAWING_CANVAS_SIZE as u64 > 32767 {
            return false;
        }
        i += 1;
    }
    true
}

/// Seed of the generator that drives the drawing search.
pub const DRAWING_SEED: u64 = 12345;

/// The generator the drawing search starts from, seeded with `DRAWING_SEED`.
pub fn drawing_rng() -> (r: frand::Rand)
    ensures
        r == seeded_rand(DRAWING_SEED),
{
    rand_with_seed(DRAWING_SEED)
}

/// The starting pixels of the drawing search: slot `i` holds the pixel of
/// cell `i` itself, storing its cost there plus the stroke reward.
pub fn init_drawing_pixels(
    target_pixels: &[(u8, u8, u8)],
    weights: &[i64],
    colors: &[(u8, u8, u8)],
    sidelen: u32,
    proximity_importance: i64,
) -> (pixels: Vec<DrawingPixel>)
    requires
        sidelen == DRAWING_CANVAS_SIZE,
        target_pixels@.len() == canvas_cells(),
        weights@.len() == canvas_cells(),
        colors@.len() == canvas_cells(),
        forall|i: int|
            0 <= i < weights@.len() ==> cost_bounded(#[trigger] weights@[i] as int, proximity_importance as int),
    ensures
        pixels_ok(pixels@),
        sources_form_grid(pixels@, DRAWING_CANVAS_SIZE as int),
        forall|i: int|
            0 <= i < pixels@.len() ==> {
                &&& (#[trigger] pixels@[i]).src_x == i % (DRAWING_CANVAS_SIZE as int)
                &&& pixels@[i].src_y == i / (DRAWING_CANVAS_SIZE as int)
                &&& pixels@[i].h == slot_cost(pixels@[i], i, target_pixels@, weights@, colors@, proximity_importance)
                    + STROKE_REWARD
            },
{
    let n = target_pixels.len();
    let mut pixels: Vec<DrawingPixel> = Vec::new();
    let mut i: usize = 0;
    while i < n
        invariant
            i <= n,
            n == canvas_cells(),
            sidelen == DRAWING_CANVAS_SIZE,
            target_pixels@.len() == canvas_cells(),
            weights@.len() == canvas_cells(),
            colors@.len() == canvas_cells(),
            forall|j: int|
                0 <= j < weights@.len() ==> cost_bounded(#[trigger] weights@[j] as int, proximity_importance as int),
            pixels@.len() == i,
            forall|j: int|
                0 <= j < i ==> {
                    &&& (#[trigger] pixels@[j]).src_x == j % (DRAWING_CANVAS_SIZE as int)
                    &&& pixels@[j].src_y == j / (DRAWING_CANVAS_SIZE as int)
                    &&& pixels@[j].h == slot_cost(pixels@[j], j, target_pixels@, weights@, colors@, proximity_importance)
                        + STROKE_REWARD
                    &&& h_in_bounds(pixels@[j].h as int)
                },
        decreases n - i,
    {
        let x = (i as u32 % sidelen) as u16;
        let y = (i as u32 / sidelen) as u16;
        let mut p = DrawingPixel::new(x, y, 0);
        assert(slot_pos(i as int) == (x, y));
        proof {
            lemma_cost_in_range((x, y), (x, y), source_color(p, colors@), target_pixels@[i as int], weights@[i as int] as int, proximity_importance as int);
        }
        let h = p.calc_drawing_heuristic((x, y), target_pixels[i], weights[i], colors, proximity_importance)
            + STROKE_REWARD;
        p.update_heuristic(h);
        pixels.push(p);
        i += 1;
    }
    proof {
        assert forall|a: int, b: int|
            0 <= a < pixels@.len() && 0 <= b < pixels@.len() && a != b implies (#[trigger] pixels@[a]).src_x
                != (#[trigger] pixels@[b]).src_x || pixels@[a].src_y != pixels@[b].src_y by {
            assert(a == (a / 128) * 128 + a % 128);
            assert(b == (b / 128) * 128 + b % 128);
        }
    }
    pixels
}

/// The source cell, numbered row by row on a `side`-wide grid, of a pixel.
pub open spec fn assignment_of(p: DrawingPixel, side: int) -> int {
    p.src_y * side + p.src_x
}

/// For each slot, the number of the cell whose pixel now stands there.
pub fn drawing_assignments(pixels: &[DrawingPixel], sidelen: u32) -> (assignments: Vec<usize>)
    requires
        forall|i: int|
            0 <= i < pixels@.len() ==> assignment_of(#[trigger] pixels@[i], sidelen as int) <= usize::MAX,
    ensures
        assignments@.len() == pixels@.len(),
        forall|i: int|
            0 <= i < pixels@.len() ==> #[trigger] assignments@[i] == assignment_of(pixels@[i], sidelen as int),
{
    let mut assignments: Vec<usize> = Vec::new();
    let mut i: usize = 0;
    while i < pixels.len()
        invariant
            i <= pixels@.len(),
            forall|j: int|
                0 <= j < pixels@.len() ==> assignment_of(#[trigger] pixels@[j], sidelen as int) <= usize::MAX,
            assignments@.len() == i,
            forall|j: int| 0 <= j < i ==> #[trigger] assignments@[j] == assignment_of(pixels@[j], sidelen as int),
        decreases pixels@.len() - i,
    {
        let p = pixels[i];
        assert(assignment_of(p, sidelen as int) <= usize::MAX);
        assert(0 <= p.src_y * sidelen) by (nonlinear_arith)
            requires 0 <= p.src_y, 0 <= sidelen;
        let a = p.src_y as usize * sidelen as usize + p.src_x as usize;
        assignments.push(a);
        i += 1;
    }
    assignments
}

/// A list of `n` numbers, each below `n` and none twice: every number below `n` once.
pub open spec fn is_permutation(s: Seq<int>) -> bool {
    &&& forall|i: int| 0 <= i < s.len() ==> 0 <= #[trigger] s[i] < s.len()
    &&& forall|i: int, j: int| 0 <= i < s.len() && 0 <= j < s.len() && i != j ==> #[trigger] s[i] != #[trigger] s[j]
}

proof fn lemma_grid_number_unique(x1: int, y1: int, x2: int, y2: int, side: int)
    by (nonlinear_arith)
    requires
        0 <= x1 < side,
        0 <= x2 < side,
        0 <= y1 < side,
        0 <= y2 < side,
        y1 * side + x1 == y2 * side + x2,
    ensures
        x1 == x2 && y1 == y2,
{
}

proof fn lemma_grid_number_range(x: int, y: int, side: int)
    by (nonlinear_arith)
    requires
        0 <= x < side,
        0 <= y < side,
    ensures
        0 <= y * side + x < side * side,
{
}

/// When the pixels' sources cover the grid once each, the cells they report,
/// slot by slot, are a permutation: every target slot receives exactly one
/// source cell and every source cell is used exactly once.
pub proof fn lemma_grid_assignments_are_permutation(pixels: Seq<DrawingPixel>, side: int)
    requires
        sources_form_grid(pixels, side),
    ensures
        is_permutation(pixels.map_values(|p: DrawingPixel| assignment_of(p, side))),
{
    let a = pixels.map_values(|p: DrawingPixel| assignment_of(p, side));
    assert forall|i: int| 0 <= i < a.len() implies 0 <= #[trigger] a[i] < a.len() by {
        lemma_grid_number_range(pixels[i].src_x as int, pixels[i].src_y as int, side);
    }
    assert forall|i: int, j: int| 0 <= i < a.len() && 0 <= j < a.len() && i != j implies #[trigger] a[i]
        != #[trigger] a[j] by {
        let pi = pixels[i];
        let pj = pixels[j];
        if a[i] == a[j] {
            lemma_grid_number_unique(pi.src_x as int, pi.src_y as int, pj.src_x as int, pj.src_y as int, side);
        }
    }
}

} // verus!
