use vstd::prelude::*;

verus! {

/// An 8-bit RGB image stored row by row, three bytes per pixel. The buffer may
/// be longer than the pixels need; the extra bytes are never read.
pub struct RgbBuffer {
    width: u32,
    height: u32,
    data: Vec<u8>,
}

/// Bytes the pixels of a `width` by `height` image take.
pub open spec fn byte_len(width: int, height: int) -> int {
    3 * width * height
}

/// The first `rows` rows of the `cw`-pixel-wide window at column `x`, row `y`
/// of the image `(w, h, data)`, row after row.
pub open spec fn window_rows(data: Seq<u8>, w: int, x: int, y: int, cw: int, rows: int) -> Seq<u8>
    decreases rows,
{
    if rows <= 0 {
        Seq::empty()
    } else {
        let start = 3 * ((y + rows - 1) * w + x);
        window_rows(data, w, x, y, cw, rows - 1) + data.subrange(start, start + 3 * cw)
    }
}

pub open spec fn min_u32(a: u32, b: u32) -> u32 {
    if a < b { a } else { b }
}

/// The window a crop request covers once clamped to the image: left, top,
/// width and height.
pub open spec fn clamp_window(w: u32, h: u32, x: u32, y: u32, cw: u32, ch: u32) -> (u32, u32, u32, u32) {
    let x2 = min_u32(x, w);
    let y2 = min_u32(y, h);
    (x2, y2, min_u32(cw, (w - x2) as u32), min_u32(ch, (h - y2) as u32))
}

/// The image that cropping `img` to the requested window gives.
pub open spec fn crop_spec(img: (u32, u32, Seq<u8>), x: u32, y: u32, cw: u32, ch: u32) -> (u32, u32, Seq<u8>) {
    let (x2, y2, cw2, ch2) = clamp_window(img.0, img.1, x, y, cw, ch);
    (cw2, ch2, window_rows(img.2, img.0 as int, x2 as int, y2 as int, cw2 as int, ch2 as int))
}

/// The pixel at column `i`, row `j` of a view.
pub open spec fn pixel_at(img: (u32, u32, Seq<u8>), i: int, j: int) -> (u8, u8, u8) {
    let k = 3 * (j * img.0 + i);
    (img.2[k], img.2[k + 1], img.2[k + 2])
}

/// The image decoding error of the `image` crate.
#[verifier::external_type_specification]
#[verifier::external_body]
pub struct ExImageError(image::ImageError);

/// Why image bytes could not be turned into an image.
pub enum ImageLoadError {
    Decode(image::ImageError),
}

impl RgbBuffer {
    #[verifier::type_invariant]
    spec fn layout_ok(self) -> bool {
        byte_len(self.width as int, self.height as int) <= self.data@.len()
    }

    /// Width, height and bytes.
    pub closed spec fn view(&self) -> (u32, u32, Seq<u8>) {
        (self.width, self.height, self.data@)
    }

    /// An image over `buf`, or `None` when `buf` is shorter than the pixels need.
    pub fn from_raw(width: u32, height: u32, buf: Vec<u8>) -> (r: Option<RgbBuffer>)
        ensures
            r is Some <==> byte_len(width as int, height as int) <= buf@.len(),
            r matches Some(img) ==> img.view() == (width, height, buf@),
    {
        let len = buf.len();
        assert(0 <= 3 * width * height <= 3 * 0xffff_ffff * 0xffff_ffff) by (nonlinear_arith)
            requires width <= 0xffff_ffff, height <= 0xffff_ffff;
        let need = 3u128 * width as u128 * height as u128;
        if need <= len as u128 {
            Some(RgbBuffer { width, height, data: buf })
        } else {
            None
        }
    }

    pub fn width(&self) -> (w: u32)
        ensures
            w == self.view().0,
    {
        self.width
    }

    pub fn height(&self) -> (h: u32)
        ensures
            h == self.view().1,
    {
        self.height
    }

    pub fn dimensions(&self) -> (d: (u32, u32))
        ensures
            d == (self.view().0, self.view().1),
    {
        (self.width, self.height)
    }

    /// The underlying bytes; they are at least as many as the pixels take.
    pub fn into_raw(self) -> (data: Vec<u8>)
        ensures
            data@ == self.view().2,
            byte_len(self.view().0 as int, self.view().1 as int) <= data@.len(),
    {
        proof {
            use_type_invariant(&self);
        }
        self.data
    }

    /// The pixels, row by row, as RGB triples.
    pub fn pixel_triples(&self) -> (px: Vec<(u8, u8, u8)>)
        ensures
            px@.len() == self.view().0 * self.view().1,
            forall|k: int| 0 <= k < px@.len() ==> #[trigger] px@[k] == (self.view().2[3 * k], self.view().2[3 * k + 1], self.view().2[3 * k + 2]),
    {
        let len = self.data.len();
        proof {
            use_type_invariant(self);
            assert(3 * (self.width * self.height) == byte_len(self.width as int, self.height as int)) by (nonlinear_arith);
            assert(0 <= self.width * self.height) by (nonlinear_arith);
        }
        let n = self.width as usize * self.height as usize;
        let mut px: Vec<(u8, u8, u8)> = Vec::new();
        let mut k: usize = 0;
        while k < n
            invariant
                k <= n,
                n == self.width * self.height,
                3 * n <= self.data@.len(),
                len == self.data@.len(),
                px@.len() == k,
                forall|j: int| 0 <= j < k ==> #[trigger] px@[j] == (self.data@[3 * j], self.data@[3 * j + 1], self.data@[3 * j + 2]),
            decreases n - k,
        {
            px.push((self.data[3 * k], self.data[3 * k + 1], self.data[3 * k + 2]));
            k += 1;
        }
        px
    }

    /// The part of the image inside the window at column `x`, row `y`, `cw`
    /// pixels wide and `ch` high, clamped to the image.
    pub fn crop(&self, x: u32, y: u32, cw: u32, ch: u32) -> (r: RgbBuffer)
        ensures
            r.view() == crop_spec(self.view(), x, y, cw, ch),
            r.view().2.len() == byte_len(r.view().0 as int, r.view().1 as int),
    {
        proof {
            use_type_invariant(self);
        }
        let x2 = if x < self.width { x } else { self.width };
        let y2 = if y < self.height { y } else { self.height };
        let cw2 = if cw < self.width - x2 { cw } else { self.width - x2 };
        let ch2 = if ch < self.height - y2 { ch } else { self.height - y2 };
        let w = self.width as usize;
        let dlen = self.data.len();
        let mut data: Vec<u8> = Vec::new();
        let mut j: u32 = 0;
        while j < ch2
            invariant
                j <= ch2,
                x2 + cw2 <= self.width,
                y2 + ch2 <= self.height,
                w == self.width,
                dlen == self.data@.len(),
                byte_len(self.width as int, self.height as int) <= self.data@.len(),
                data@ == window_rows(self.data@, w as int, x2 as int, y2 as int, cw2 as int, j as int),
                data@.len() == 3 * cw2 * j,
            decreases ch2 - j,
        {
            proof {
                assert(((y2 + j) * w + x2 + cw2) * 3 <= 3 * self.width * self.height) by (nonlinear_arith)
                    requires
                        x2 + cw2 <= w,
                        y2 + j < self.height,
                        w == self.width,
                ;
                assert(0 <= (y2 + j) * w) by (nonlinear_arith)
                    requires 0 <= y2 + j, 0 <= w;
                assert(self.data@.len() == dlen);
                assert(3 * cw2 * (j + 1) == 3 * cw2 * j + 3 * cw2) by (nonlinear_arith);
            }
            let start = 3 * ((y2 as usize + j as usize) * w + x2 as usize);
            let end = start + 3 * cw2 as usize;
            let ghost before = data@;
            data.extend_from_slice(&self.data.as_slice()[start..end]);
            proof {
                assert(data@ =~= before + self.data@.subrange(start as int, end as int));
            }
            j += 1;
        }
        proof {
            assert(byte_len(cw2 as int, ch2 as int) == 3 * cw2 * ch2) by (nonlinear_arith);
        }
        RgbBuffer { width: cw2, height: ch2, data }
    }
}

proof fn lemma_full_rows(data: Seq<u8>, w: int, rows: int)
    requires
        0 <= w,
        0 <= rows,
        3 * w * rows <= data.len(),
    ensures
        window_rows(data, w, 0, 0, w, rows) =~= data.subrange(0, 3 * w * rows),
    decreases rows,
{
    if rows > 0 {
        assert(3 * w * (rows - 1) <= 3 * w * rows) by (nonlinear_arith)
            requires 0 <= w, 0 < rows;
        lemma_full_rows(data, w, rows - 1);
        assert(3 * ((rows - 1) * w) == 3 * w * (rows - 1)) by (nonlinear_arith);
        assert(3 * ((rows - 1) * w) + 3 * w == 3 * w * rows) by (nonlinear_arith);
        let start = 3 * ((0 + rows - 1) * w + 0);
        assert(start == 3 * w * (rows - 1));
        assert(window_rows(data, w, 0, 0, w, rows) == window_rows(data, w, 0, 0, w, rows - 1)
            + data.subrange(start, start + 3 * w));
        assert(data.subrange(0, start) + data.subrange(start, start + 3 * w) =~= data.subrange(0, 3 * w * rows));
    } else {
        assert(3 * w * rows == 0) by (nonlinear_arith) requires rows == 0;
    }
}

/// Cropping an image to its whole area gives back its pixels unchanged.
pub proof fn lemma_full_crop_is_identity(img: (u32, u32, Seq<u8>))
    requires
        byte_len(img.0 as int, img.1 as int) <= img.2.len(),
    ensures
        crop_spec(img, 0, 0, img.0, img.1) == (img.0, img.1, img.2.subrange(0, byte_len(img.0 as int, img.1 as int))),
{
    lemma_full_rows(img.2, img.0 as int, img.1 as int);
}

proof fn lemma_window_rows_index(
    data: Seq<u8>,
    w: int,
    h: int,
    x: int,
    y: int,
    cw: int,
    rows: int,
    j: int,
    t: int,
)
    requires
        0 <= x,
        0 <= cw,
        x + cw <= w,
        0 <= y,
        y + rows <= h,
        3 * w * h <= data.len(),
        0 <= j < rows,
        0 <= t < 3 * cw,
    ensures
        window_rows(data, w, x, y, cw, rows).len() == 3 * cw * rows,
        window_rows(data, w, x, y, cw, rows)[3 * cw * j + t] == data[3 * ((y + j) * w + x) + t],
    decreases rows,
{
    let start = 3 * ((y + rows - 1) * w + x);
    assert((y + rows - 1) * w <= (h - 1) * w) by (nonlinear_arith)
        requires
            y + rows - 1 <= h - 1,
            0 <= w,
    ;
    assert(start + 3 * cw <= 3 * w * h) by (nonlinear_arith)
        requires
            start == 3 * ((y + rows - 1) * w + x),
            (y + rows - 1) * w <= (h - 1) * w,
            x + cw <= w,
    ;
    assert(0 <= start) by (nonlinear_arith)
        requires
            start == 3 * ((y + rows - 1) * w + x),
            0 <= x,
            0 <= y,
            1 <= rows,
            0 <= w,
    ;
    assert(3 * cw * (rows - 1) + 3 * cw == 3 * cw * rows) by (nonlinear_arith);
    let prefix = window_rows(data, w, x, y, cw, rows - 1);
    let chunk = data.subrange(start, start + 3 * cw);
    assert(window_rows(data, w, x, y, cw, rows) == prefix + chunk);
    if rows == 1 {
        assert(prefix.len() == 0);
        assert(j == 0);
        assert(3 * cw * j == 0) by (nonlinear_arith) requires j == 0;
        assert((prefix + chunk)[t] == chunk[t]);
    } else {
        lemma_window_rows_index(data, w, h, x, y, cw, rows - 1, 0, 0);
        assert(prefix.len() == 3 * cw * (rows - 1));
        if j < rows - 1 {
            lemma_window_rows_index(data, w, h, x, y, cw, rows - 1, j, t);
            assert(3 * cw * j + t < 3 * cw * (rows - 1)) by (nonlinear_arith)
                requires
                    0 <= t < 3 * cw,
                    j < rows - 1,
                    0 <= j,
            ;
            assert((prefix + chunk)[3 * cw * j + t] == prefix[3 * cw * j + t]);
        } else {
            assert(j == rows - 1);
            assert(3 * cw * j == 3 * cw * (rows - 1));
            assert((prefix + chunk)[3 * cw * j + t] == chunk[t]);
        }
    }
}

/// Cropping keeps pixels where they were relative to the window: pixel
/// (`i`, `j`) of the crop is pixel (`i`, `j`) counted from the window's corner.
pub proof fn lemma_crop_keeps_pixels(img: (u32, u32, Seq<u8>), x: u32, y: u32, cw: u32, ch: u32, i: int, j: int)
    requires
        byte_len(img.0 as int, img.1 as int) <= img.2.len(),
        0 <= i < clamp_window(img.0, img.1, x, y, cw, ch).2,
        0 <= j < clamp_window(img.0, img.1, x, y, cw, ch).3,
    ensures
        ({
            let (x2, y2, cw2, ch2) = clamp_window(img.0, img.1, x, y, cw, ch);
            let c = crop_spec(img, x, y, cw, ch);
            &&& c.2.len() == byte_len(cw2 as int, ch2 as int)
            &&& pixel_at(c, i, j) == pixel_at(img, x2 + i, y2 + j)
        }),
{
    let (x2, y2, cw2, ch2) = clamp_window(img.0, img.1, x, y, cw, ch);
    let (w, h, data) = img;
    assert(3 * cw2 * j + 3 * i == 3 * (j * cw2 + i)) by (nonlinear_arith);
    assert(3 * ((y2 + j) * w + x2) + 3 * i == 3 * ((y2 + j) * w + (x2 + i))) by (nonlinear_arith);
    lemma_window_rows_index(data, w as int, h as int, x2 as int, y2 as int, cw2 as int, ch2 as int, j, 3 * i);
    lemma_window_rows_index(data, w as int, h as int, x2 as int, y2 as int, cw2 as int, ch2 as int, j, 3 * i + 1);
    lemma_window_rows_index(data, w as int, h as int, x2 as int, y2 as int, cw2 as int, ch2 as int, j, 3 * i + 2);
    assert(3 * cw2 * ch2 == byte_len(cw2 as int, ch2 as int));
}

/// Calls `image::imageops::resize` with the Lanczos3 filter. The result has
/// the asked size and exactly the bytes its pixels take (the crate builds it
/// with `ImageBuffer::new`). An input with no pixels gives that fresh buffer
/// as it is, all zeros; an input already of the asked size is copied pixel by
/// pixel. Which bytes a true resampling gives is not stated: the filter
/// evaluates `f32::sin`, whose precision std leaves to the platform, so equal
/// inputs need not give equal bytes everywhere. The crate first resamples the
/// rows into a four-channel float image of the old width and the new height,
/// and `ImageBuffer::new` panics when a buffer's length overflows `usize`;
/// `requires` keeps both buffers within it.
#[verifier::external_body]
fn resize_lanczos3(img: &RgbBuffer, nw: u32, nh: u32) -> (r: RgbBuffer)
    requires
        byte_len(nw as int, nh as int) <= usize::MAX,
        4 * img.view().0 * nh <= usize::MAX,
    ensures
        r.view().0 == nw,
        r.view().1 == nh,
        r.view().2.len() == byte_len(nw as int, nh as int),
        img.view().0 == 0 || img.view().1 == 0 ==> forall|k: int|
            0 <= k < r.view().2.len() ==> #[trigger] r.view().2[k] == 0,
        img.view().0 != 0 && img.view().1 != 0 && img.view().0 == nw && img.view().1 == nh
            ==> r.view().2 == img.view().2.subrange(0, byte_len(nw as int, nh as int)),
{
    let src = image::RgbImage::from_raw(img.width, img.height, img.data.clone()).unwrap();
    let out = image::imageops::resize(&src, nw, nh, image::imageops::FilterType::Lanczos3);
    RgbBuffer { width: nw, height: nh, data: out.into_raw() }
}

/// Calls `image::load_from_memory` and converts the decoded image with
/// `to_rgb8`, which builds a fresh buffer: an `Ok` image has exactly the bytes
/// its pixels take. What the bytes decode to, and whether they decode at all,
/// is not stated: the crate first consults format-detection and decoding
/// hooks that any code in the process may register at any time, so equal
/// bytes need not decode alike.
#[verifier::external_body]
fn decode_rgb8(bytes: &[u8]) -> (r: Result<RgbBuffer, image::ImageError>)
    ensures
        r matches Ok(img) ==> img.view().2.len() == byte_len(img.view().0 as int, img.view().1 as int),
{
    match image::load_from_memory(bytes) {
        Ok(img) => {
            let rgb = img.to_rgb8();
            let (width, height) = rgb.dimensions();
            Ok(RgbBuffer { width, height, data: rgb.into_raw() })
        },
        Err(e) => Err(e),
    }
}

/// Decodes encoded image bytes (such as a PNG file) into an 8-bit RGB image.
/// The bytes go to the decoder as given, and its error is passed on; a
/// decoded image holds exactly the bytes its pixels take.
pub fn load_rgb8(bytes: &[u8]) -> (r: Result<RgbBuffer, ImageLoadError>)
    ensures
        r matches Ok(img) ==> img.view().2.len() == byte_len(img.view().0 as int, img.view().1 as int),
{
    match decode_rgb8(bytes) {
        Ok(img) => Ok(img),
        Err(e) => Err(ImageLoadError::Decode(e)),
    }
}

/// Crops `img` to the `side` by `side` window at column `x0`, row `y0`, and
/// brings the crop to `sidelen` by `sidelen` with a Lanczos3 resize unless the
/// requested side already equals `sidelen`. A crop with no pixels resizes to
/// black; a crop that the clamping already brought to `sidelen` by `sidelen`
/// comes back as it is.
pub fn crop_to_side(img: &RgbBuffer, x0: u32, y0: u32, side: u32, sidelen: u32) -> (r: RgbBuffer)
    requires
        byte_len(sidelen as int, sidelen as int) <= usize::MAX,
        side != sidelen ==> 4 * crop_spec(img.view(), x0, y0, side, side).0 * sidelen <= usize::MAX,
    ensures
        side == sidelen ==> r.view() == crop_spec(img.view(), x0, y0, side, side),
        side != sidelen ==> r.view().0 == sidelen && r.view().1 == sidelen && r.view().2.len()
            == byte_len(sidelen as int, sidelen as int),
        ({
            let c = crop_spec(img.view(), x0, y0, side, side);
            side != sidelen && (c.0 == 0 || c.1 == 0) ==> forall|k: int|
                0 <= k < r.view().2.len() ==> #[trigger] r.view().2[k] == 0
        }),
        ({
            let c = crop_spec(img.view(), x0, y0, side, side);
            c.0 == sidelen && c.1 == sidelen && sidelen != 0 ==> r.view() == c
        }),
{
    let cropped = img.crop(x0, y0, side, side);
    if side == sidelen {
        cropped
    } else {
        let r = resize_lanczos3(&cropped, sidelen, sidelen);
        proof {
            if cropped.view().0 == sidelen && cropped.view().1 == sidelen && sidelen != 0 {
                assert(cropped.view().2.subrange(0, byte_len(sidelen as int, sidelen as int)) =~= cropped.view().2);
            }
        }
        r
    }
}

/// Per-pixel weights read from the red channel of a weight image, row by row.
pub fn load_weights(source: RgbBuffer) -> (weights: Vec<i64>)
    requires
        source.view().0 * source.view().1 <= u32::MAX,
    ensures
        weights@.len() == source.view().0 * source.view().1,
        forall|k: int| 0 <= k < weights@.len() ==> #[trigger] weights@[k] == source.view().2[3 * k] as i64,
{
    let px = source.pixel_triples();
    let n = source.width() as usize * source.height() as usize;
    let mut weights: Vec<i64> = Vec::new();
    let mut k: usize = 0;
    while k < n
        invariant
            k <= n,
            px@.len() == n,
            n == source.view().0 * source.view().1,
            forall|j: int| 0 <= j < px@.len() ==> #[trigger] px@[j] == (source.view().2[3 * j], source.view().2[3 * j + 1], source.view().2[3 * j + 2]),
            weights@.len() == k,
            forall|j: int| 0 <= j < k ==> #[trigger] weights@[j] == source.view().2[3 * j] as i64,
        decreases n - k,
    {
        weights.push(px[k].0 as i64);
        k += 1;
    }
    weights
}

/// The weights of a target: uniform 255 for a custom target (`None`), else
/// the weights read from the cropped weight image.
pub fn target_weights(sidelen: u32, cropped_weights: Option<RgbBuffer>) -> (weights: Vec<i64>)
    requires
        sidelen * sidelen <= u32::MAX,
        cropped_weights matches Some(img) ==> img.view().0 * img.view().1 <= u32::MAX,
    ensures
        cropped_weights is None ==> weights@.len() == sidelen * sidelen && forall|k: int|
            0 <= k < weights@.len() ==> #[trigger] weights@[k] == 255,
        cropped_weights matches Some(img) ==> weights@.len() == img.view().0 * img.view().1
            && forall|k: int| 0 <= k < weights@.len() ==> #[trigger] weights@[k] == img.view().2[3 * k] as i64,
{
    match cropped_weights {
        Some(img) => load_weights(img),
        None => {
            vec![255; (sidelen * sidelen) as usize]
        },
    }
}

} // verus!
