use vstd::prelude::*;
use crate::cost::{cost_spec, cost_fits, heuristic};

verus! {

/// Side length, in cells, of the square drawing canvas.
pub const DRAWING_CANVAS_SIZE: usize = 128;

/// Bonus (a negative cost) for a pixel that lands next to a pixel of its own stroke.
pub const STROKE_REWARD: i64 = -10000000000;

/// What the canvas remembers of each painted cell.
#[derive(Clone, Copy)]
pub struct PixelData {
    pub stroke_id: u32,
    pub last_edited: u32,
}

impl PixelData {
    /// A fresh canvas: every cell belongs to stroke 0 and was last edited at `frame_count`.
    pub fn init_canvas(frame_count: u32) -> (canvas: Vec<PixelData>)
        ensures
            canvas@.len() == DRAWING_CANVAS_SIZE * DRAWING_CANVAS_SIZE,
            forall|i: int|
                0 <= i < canvas@.len() ==> #[trigger] canvas@[i] == (PixelData {
                    stroke_id: 0,
                    last_edited: frame_count,
                }),
    {
        vec![PixelData { stroke_id: 0, last_edited: frame_count }; DRAWING_CANVAS_SIZE * DRAWING_CANVAS_SIZE]
    }
}

/// A source pixel of the canvas, the cell it came from and the cost it has
/// at the slot it currently occupies.
#[derive(Clone, Copy)]
pub struct DrawingPixel {
    pub src_x: u16,
    pub src_y: u16,
    pub h: i64,
}

/// Index into canvas-sized tables (colors, pixel data) of the cell a pixel came from.
pub open spec fn source_index(p: DrawingPixel) -> int {
    p.src_y * DRAWING_CANVAS_SIZE + p.src_x
}

/// The color of the cell a pixel came from.
pub open spec fn source_color(p: DrawingPixel, colors: Seq<(u8, u8, u8)>) -> (u8, u8, u8) {
    colors[source_index(p)]
}

impl DrawingPixel {
    pub fn new(src_x: u16, src_y: u16, h: i64) -> (p: Self)
        ensures
            p == (DrawingPixel { src_x, src_y, h }),
    {
        Self { src_x, src_y, h }
    }

    pub fn update_heuristic(&mut self, new_h: i64)
        ensures
            *final(self) == (DrawingPixel { h: new_h, ..*old(self) }),
    {
        self.h = new_h;
    }

    /// Cost of this pixel at `target_pos`, whose wanted color is `target_col`;
    /// the pixel's own color is read from the canvas colors at its source cell.
    pub fn calc_drawing_heuristic(
        &self,
        target_pos: (u16, u16),
        target_col: (u8, u8, u8),
        weight: i64,
        colors: &[(u8, u8, u8)],
        proximity_importance: i64,
    ) -> (h: i64)
        requires
            source_index(*self) < colors@.len(),
            cost_fits(
                (self.src_x, self.src_y),
                target_pos,
                source_color(*self, colors@),
                target_col,
                weight as int,
                proximity_importance as int,
            ),
        ensures
            h == cost_spec(
                (self.src_x, self.src_y),
                target_pos,
                source_color(*self, colors@),
                target_col,
                weight as int,
                proximity_importance as int,
            ),
    {
        let col = colors[self.src_y as usize * DRAWING_CANVAS_SIZE + self.src_x as usize];
        heuristic((self.src_x, self.src_y), target_pos, col, target_col, weight, proximity_importance)
    }
}

/// The four directions looked at around a cell: up, left, right, down.
pub open spec fn direction(k: int) -> (int, int) {
    if k == 0 {
        (0, -1)
    } else if k == 1 {
        (-1, 0)
    } else if k == 2 {
        (1, 0)
    } else {
        (0, 1)
    }
}

fn direction_exec(k: usize) -> (d: (i16, i16))
    requires
        k < 4,
    ensures
        d.0 == direction(k as int).0,
        d.1 == direction(k as int).1,
{
    if k == 0 {
        (0, -1)
    } else if k == 1 {
        (-1, 0)
    } else if k == 2 {
        (1, 0)
    } else {
        (0, 1)
    }
}

/// The canvas cell next to `pos` in direction `k`, if it lies on the canvas.
pub open spec fn neighbour(pos: int, k: int) -> Option<int> {
    let c = DRAWING_CANVAS_SIZE as int;
    let nx = pos % c + direction(k).0;
    let ny = pos / c + direction(k).1;
    if 0 <= nx < c && 0 <= ny < c {
        Some(ny * c + nx)
    } else {
        None
    }
}

/// The pixel now at neighbour `k` of `newpos` comes from the same stroke as
/// the pixel now at `oldpos`.
pub open spec fn same_stroke_at(
    newpos: int,
    oldpos: int,
    k: int,
    pixel_data: Seq<PixelData>,
    pixels: Seq<DrawingPixel>,
) -> bool {
    match neighbour(newpos, k) {
        Some(n) => pixel_data[source_index(pixels[n])].stroke_id == pixel_data[source_index(
            pixels[oldpos],
        )].stroke_id,
        None => false,
    }
}

/// The reward for placing the pixel now at `oldpos` on `newpos`.
pub open spec fn stroke_reward_spec(
    newpos: int,
    oldpos: int,
    pixel_data: Seq<PixelData>,
    pixels: Seq<DrawingPixel>,
) -> int {
    if exists|k: int| 0 <= k < 4 && #[trigger] same_stroke_at(newpos, oldpos, k, pixel_data, pixels) {
        STROKE_REWARD as int
    } else {
        0
    }
}

/// What `stroke_reward` reads lies inside the tables it is given.
pub open spec fn stroke_reward_readable(
    newpos: int,
    oldpos: int,
    pixel_data: Seq<PixelData>,
    pixels: Seq<DrawingPixel>,
) -> bool {
    &&& 0 <= oldpos < pixels.len()
    &&& source_index(pixels[oldpos]) < pixel_data.len()
    &&& newpos / (DRAWING_CANVAS_SIZE as int) < 32767
    &&& forall|k: int|
        0 <= k < 4 ==> match #[trigger] neighbour(newpos, k) {
            Some(n) => n < pixels.len() && source_index(pixels[n]) < pixel_data.len(),
            None => true,
        }
}

/// `STROKE_REWARD` when one of the four neighbours of `newpos` holds a pixel
/// of the same stroke as the pixel at `oldpos`, else 0.
#[allow(unused_variables)]
pub fn stroke_reward(
    newpos: usize,
    oldpos: usize,
    pixel_data: &[PixelData],
    pixels: &[DrawingPixel],
    frame_count: u32,
) -> (r: i64)
    requires
        stroke_reward_readable(newpos as int, oldpos as int, pixel_data@, pixels@),
    ensures
        r == stroke_reward_spec(newpos as int, oldpos as int, pixel_data@, pixels@),
{
    let x = (newpos % DRAWING_CANVAS_SIZE) as u16;
    let y = (newpos / DRAWING_CANVAS_SIZE) as u16;
    let data = pixel_data[pixels[oldpos].src_x as usize + pixels[oldpos].src_y as usize
        * DRAWING_CANVAS_SIZE];
    let stroke_id = data.stroke_id;
    let mut k: usize = 0;
    while k < 4
        invariant
            k <= 4,
            x == newpos % DRAWING_CANVAS_SIZE,
            y == newpos / DRAWING_CANVAS_SIZE,
            y < 32767,
            stroke_reward_readable(newpos as int, oldpos as int, pixel_data@, pixels@),
            stroke_id == pixel_data@[source_index(pixels@[oldpos as int])].stroke_id,
            forall|j: int|
                0 <= j < k ==> !#[trigger] same_stroke_at(
                    newpos as int,
                    oldpos as int,
                    j,
                    pixel_data@,
                    pixels@,
                ),
        decreases 4 - k,
    {
        let (dx, dy) = direction_exec(k);
        let nx = x as i16 + dx;
        let ny = y as i16 + dy;
        assert(neighbour(newpos as int, k as int) == (if 0 <= nx < 128 && 0 <= ny < 128 {
            Some(ny * 128 + nx)
        } else {
            None::<int>
        }));
        if !(nx < 0 || nx >= DRAWING_CANVAS_SIZE as i16 || ny < 0 || ny >= DRAWING_CANVAS_SIZE
            as i16) {
            let npos = ny as usize * DRAWING_CANVAS_SIZE + nx as usize;
            assert(neighbour(newpos as int, k as int) == Some(npos as int));
            if pixel_data[pixels[npos].src_x as usize + pixels[npos].src_y as usize
                * DRAWING_CANVAS_SIZE].stroke_id == stroke_id {
                assert(same_stroke_at(newpos as int, oldpos as int, k as int, pixel_data@, pixels@));
                return STROKE_REWARD;
            }
        }
        k += 1;
    }
    0
}

/// The stroke of the cell that the pixel at slot `n` came from.
pub open spec fn stroke_of_slot(n: int, pixel_data: Seq<PixelData>, pixels: Seq<DrawingPixel>) -> u32 {
    pixel_data[pixels[n].src_y * 128 + pixels[n].src_x].stroke_id
}

/// Slot `pos` of the canvas has, directly above it, directly to its left,
/// directly to its right or directly below it, a slot whose pixel came from
/// stroke `stroke`.
pub open spec fn touches_stroke(pos: int, stroke: u32, pixel_data: Seq<PixelData>, pixels: Seq<DrawingPixel>) -> bool {
    ||| pos >= 128 && stroke_of_slot(pos - 128, pixel_data, pixels) == stroke
    ||| pos % 128 != 0 && stroke_of_slot(pos - 1, pixel_data, pixels) == stroke
    ||| pos % 128 != 127 && stroke_of_slot(pos + 1, pixel_data, pixels) == stroke
    ||| pos + 128 < 128 * 128 && stroke_of_slot(pos + 128, pixel_data, pixels) == stroke
}

/// Placing the pixel now at `oldpos` on slot `newpos` earns `STROKE_REWARD`
/// exactly when one of the four slots next to `newpos` (above, left, right,
/// below; those on the canvas) holds a pixel of the same stroke as the pixel
/// at `oldpos`, and nothing otherwise.
pub proof fn lemma_stroke_reward_looks_around_the_new_slot(
    newpos: int,
    oldpos: int,
    pixel_data: Seq<PixelData>,
    pixels: Seq<DrawingPixel>,
)
    requires
        0 <= newpos < 128 * 128,
    ensures
        stroke_reward_spec(newpos, oldpos, pixel_data, pixels) == if touches_stroke(
            newpos,
            stroke_of_slot(oldpos, pixel_data, pixels),
            pixel_data,
            pixels,
        ) {
            STROKE_REWARD as int
        } else {
            0
        },
{
    let own = stroke_of_slot(oldpos, pixel_data, pixels);
    let x = newpos % 128;
    let y = newpos / 128;
    assert(newpos == y * 128 + x);
    assert(0 <= x < 128 && 0 <= y < 128);
    let up = newpos >= 128 && stroke_of_slot(newpos - 128, pixel_data, pixels) == own;
    let left = x != 0 && stroke_of_slot(newpos - 1, pixel_data, pixels) == own;
    let right = x != 127 && stroke_of_slot(newpos + 1, pixel_data, pixels) == own;
    let down = newpos + 128 < 128 * 128 && stroke_of_slot(newpos + 128, pixel_data, pixels) == own;
    assert(same_stroke_at(newpos, oldpos, 0, pixel_data, pixels) == up) by {
        if y >= 1 {
            assert(neighbour(newpos, 0) == Some(newpos - 128));
        } else {
            assert(neighbour(newpos, 0) is None);
        }
    }
    assert(same_stroke_at(newpos, oldpos, 1, pixel_data, pixels) == left) by {
        if x >= 1 {
            assert(neighbour(newpos, 1) == Some(newpos - 1));
        } else {
            assert(neighbour(newpos, 1) is None);
        }
    }
    assert(same_stroke_at(newpos, oldpos, 2, pixel_data, pixels) == right) by {
        if x < 127 {
            assert(neighbour(newpos, 2) == Some(newpos + 1));
        } else {
            assert(neighbour(newpos, 2) is None);
        }
    }
    assert(same_stroke_at(newpos, oldpos, 3, pixel_data, pixels) == down) by {
        if y < 127 {
            assert(neighbour(newpos, 3) == Some(newpos + 128));
        } else {
            assert(neighbour(newpos, 3) is None);
        }
    }
    if up || left || right || down {
        if up {
            assert(same_stroke_at(newpos, oldpos, 0, pixel_data, pixels));
        } else if left {
            assert(same_stroke_at(newpos, oldpos, 1, pixel_data, pixels));
        } else if right {
            assert(same_stroke_at(newpos, oldpos, 2, pixel_data, pixels));
        } else {
            assert(same_stroke_at(newpos, oldpos, 3, pixel_data, pixels));
        }
    } else {
        assert forall|k: int| 0 <= k < 4 implies !#[trigger] same_stroke_at(newpos, oldpos, k, pixel_data, pixels) by {
            assert(k == 0 || k == 1 || k == 2 || k == 3);
        }
    }
}

} // verus!
