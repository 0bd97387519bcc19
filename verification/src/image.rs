//! Images: decoding through the `image` crate into RGBA pixels, the facts
//! shown about an image (translucency, number of distinct colours), and the
//! widened frame that previews a walk cycle.

use vstd::prelude::*;
use crate::text::{chars_of, concat_chars, string_from};

verus! {

broadcast use vstd::std_specs::hash::group_hash_axioms;

/// An image as rows of RGBA pixels, four bytes per pixel, row by row.
pub struct RgbaPixels {
    pub width: u32,
    pub height: u32,
    pub data: Vec<u8>,
}

impl RgbaPixels {
    /// The buffer holds exactly `width * height` pixels.
    pub open spec fn wf(&self) -> bool {
        self.data@.len() == self.width as int * self.height as int * 4
    }

    /// The number of pixels.
    pub open spec fn pixel_count(&self) -> nat {
        (self.width as int * self.height as int) as nat
    }
}

/// What is shown about a loaded image.
pub struct ImageInfo {
    pub file_size: u64,
    pub color_type: String,
    pub has_alpha: bool,
    pub unique_colors: usize,
}

/// A decoded image and what is shown about it.
pub struct LoadedImage {
    pub rgba: RgbaPixels,
    pub info: ImageInfo,
}

// ---------------------------------------------------------------------------
// Decoding, through the `image` crate
// ---------------------------------------------------------------------------

/// A name for decoding `bytes` with `image::load_from_memory`: the decoded
/// image's colour type (the `Debug` text of `color()`), width, height and
/// the RGBA8 buffer of `to_rgba8()`; or the text of the decode error.
pub uninterp spec fn decoded_image(bytes: Seq<u8>) -> Result<(Seq<char>, u32, u32, Seq<u8>), Seq<char>>;

/// `image::load_from_memory`, then `color()` (as its `Debug` text) and
/// `to_rgba8()` (as width, height and raw buffer); an error becomes its
/// display text. The contract claims that the outcome is `decoded_image` of
/// the bytes, and that the buffer holds at least `width * height` RGBA
/// pixels (an `ImageBuffer` is never built on a shorter one).
#[verifier::external_body]
fn decode(bytes: &[u8]) -> (r: Result<(String, u32, u32, Vec<u8>), String>)
    ensures
        match decoded_image(bytes@) {
            Ok((c, w, h, d)) => r matches Ok((ct, rw, rh, rd)) && ct@ == c && rw == w && rh == h
                && rd@ == d,
            Err(m) => r matches Err(e) && e@ == m,
        },
        r matches Ok((_, w, h, d)) ==> d@.len() >= w as int * h as int * 4,
{
    match image::load_from_memory(bytes) {
        Ok(img) => {
            let color = format!("{:?}", img.color());
            let rgba = img.to_rgba8();
            let (w, h) = (rgba.width(), rgba.height());
            Ok((color, w, h, rgba.into_raw()))
        },
        Err(e) => Err(e.to_string()),
    }
}

// ---------------------------------------------------------------------------
// Facts about the pixels
// ---------------------------------------------------------------------------

/// The colour of pixel `i` packed into one number, red in the low byte.
pub open spec fn pixel_key(d: Seq<u8>, i: int) -> u32 {
    (d[4 * i] as u32) | ((d[4 * i + 1] as u32) << 8u32) | ((d[4 * i + 2] as u32) << 16u32) | ((d[4
        * i + 3] as u32) << 24u32)
}

/// The packed colours of the first `n` pixels.
pub open spec fn pixel_keys(d: Seq<u8>, n: nat) -> Seq<u32> {
    Seq::new(n, |i: int| pixel_key(d, i))
}

/// Some pixel among the first `n` is not fully opaque.
pub open spec fn translucent(d: Seq<u8>, n: nat) -> bool {
    exists|i: int| 0 <= i < n && #[trigger] d[4 * i + 3] < 255
}

/// The packing of four bytes can be read back.
proof fn lemma_pack_bytes(a: u8, b: u8, c: u8, e: u8)
    ensures
        ((a as u32) | ((b as u32) << 8u32) | ((c as u32) << 16u32) | ((e as u32) << 24u32)) & 0xffu32
            == a as u32,
        (((a as u32) | ((b as u32) << 8u32) | ((c as u32) << 16u32) | ((e as u32) << 24u32)) >> 8u32)
            & 0xffu32 == b as u32,
        (((a as u32) | ((b as u32) << 8u32) | ((c as u32) << 16u32) | ((e as u32) << 24u32)) >> 16u32)
            & 0xffu32 == c as u32,
        (((a as u32) | ((b as u32) << 8u32) | ((c as u32) << 16u32) | ((e as u32) << 24u32)) >> 24u32)
            & 0xffu32 == e as u32,
{
    assert(((a as u32) | ((b as u32) << 8u32) | ((c as u32) << 16u32) | ((e as u32) << 24u32))
        & 0xffu32 == a as u32) by (bit_vector);
    assert((((a as u32) | ((b as u32) << 8u32) | ((c as u32) << 16u32) | ((e as u32) << 24u32))
        >> 8u32) & 0xffu32 == b as u32) by (bit_vector);
    assert((((a as u32) | ((b as u32) << 8u32) | ((c as u32) << 16u32) | ((e as u32) << 24u32))
        >> 16u32) & 0xffu32 == c as u32) by (bit_vector);
    assert((((a as u32) | ((b as u32) << 8u32) | ((c as u32) << 16u32) | ((e as u32) << 24u32))
        >> 24u32) & 0xffu32 == e as u32) by (bit_vector);
}

/// Law: two pixels have the same packed colour exactly when their four
/// bytes are equal, so counting packed colours counts colours.
pub proof fn lemma_pixel_key_injective(d: Seq<u8>, i: int, j: int)
    requires
        0 <= i,
        0 <= j,
        4 * i + 4 <= d.len(),
        4 * j + 4 <= d.len(),
    ensures
        pixel_key(d, i) == pixel_key(d, j) <==> d.subrange(4 * i, 4 * i + 4) == d.subrange(
            4 * j,
            4 * j + 4,
        ),
{
    lemma_pack_bytes(d[4 * i], d[4 * i + 1], d[4 * i + 2], d[4 * i + 3]);
    lemma_pack_bytes(d[4 * j], d[4 * j + 1], d[4 * j + 2], d[4 * j + 3]);
    if d.subrange(4 * i, 4 * i + 4) == d.subrange(4 * j, 4 * j + 4) {
        assert(d[4 * i] == d.subrange(4 * i, 4 * i + 4)[0]);
        assert(d[4 * j] == d.subrange(4 * j, 4 * j + 4)[0]);
        assert(d[4 * i + 1] == d.subrange(4 * i, 4 * i + 4)[1]);
        assert(d[4 * j + 1] == d.subrange(4 * j, 4 * j + 4)[1]);
        assert(d[4 * i + 2] == d.subrange(4 * i, 4 * i + 4)[2]);
        assert(d[4 * j + 2] == d.subrange(4 * j, 4 * j + 4)[2]);
        assert(d[4 * i + 3] == d.subrange(4 * i, 4 * i + 4)[3]);
        assert(d[4 * j + 3] == d.subrange(4 * j, 4 * j + 4)[3]);
    }
    if pixel_key(d, i) == pixel_key(d, j) {
        assert(d.subrange(4 * i, 4 * i + 4) =~= d.subrange(4 * j, 4 * j + 4));
    }
}

/// Whether some pixel is translucent, and how many distinct colours the
/// image has.
pub fn analyze_rgba(img: &RgbaPixels) -> (r: (bool, usize))
    requires
        img.wf(),
    ensures
        r.0 == translucent(img.data@, img.pixel_count()),
        r.1 == pixel_keys(img.data@, img.pixel_count()).to_set().len(),
{
    let n = img.data.len() / 4;
    assert(n == img.pixel_count() && n * 4 == img.data@.len()) by (nonlinear_arith)
        requires
            img.data@.len() == img.width as int * img.height as int * 4,
            n == img.data@.len() / 4,
    ;
    let mut has_alpha = false;
    let mut colors: std::collections::HashSet<u32> = std::collections::HashSet::new();
    let mut i: usize = 0;
    while i < n
        invariant
            i <= n,
            n == img.pixel_count(),
            img.data@.len() == n * 4,
            img.data.len() == n * 4,
            has_alpha == translucent(img.data@, i as nat),
            colors@ == pixel_keys(img.data@, i as nat).to_set(),
        decreases n - i,
    {
        let d = &img.data;
        let key: u32 = (d[4 * i] as u32) | ((d[4 * i + 1] as u32) << 8u32) | ((d[4 * i + 2] as u32)
            << 16u32) | ((d[4 * i + 3] as u32) << 24u32);
        assert(key == pixel_key(img.data@, i as int));
        if d[4 * i + 3] < 255 {
            has_alpha = true;
        }
        colors.insert(key);
        proof {
            assert(pixel_keys(img.data@, (i + 1) as nat) =~= pixel_keys(img.data@, i as nat).push(
                key,
            ));
            let before = pixel_keys(img.data@, i as nat);
            let after = pixel_keys(img.data@, (i + 1) as nat);
            assert forall|c: u32| #[trigger] after.contains(c) <==> (before.contains(c) || c == key) by {
                if after.contains(c) {
                    let k = choose|k: int| 0 <= k < after.len() && after[k] == c;
                    if k < i {
                        assert(before[k] == c);
                    }
                }
                if before.contains(c) {
                    let k = choose|k: int| 0 <= k < before.len() && before[k] == c;
                    assert(after[k] == c);
                }
                if c == key {
                    assert(after[i as int] == c);
                }
            }
            assert(after.to_set() =~= before.to_set().insert(key));
            if translucent(img.data@, (i + 1) as nat) && !translucent(img.data@, i as nat) {
                let k = choose|k: int| 0 <= k < i + 1 && #[trigger] img.data@[4 * k + 3] < 255;
                assert(k == i);
            }
        }
        i += 1;
    }
    (has_alpha, colors.len())
}

/// What loading an image from its bytes gives: the decoded pixels and
/// their facts, or "Decode error: " and the decoder's message.
pub open spec fn loaded_spec(bytes: Seq<u8>) -> Result<(Seq<char>, u32, u32, Seq<u8>), Seq<char>> {
    match decoded_image(bytes) {
        Ok((c, w, h, d)) => Ok((c, w, h, d.subrange(0, w as int * h as int * 4))),
        Err(m) => Err("Decode error: "@ + m),
    }
}

/// Decode an image file's bytes into RGBA pixels and what is shown about
/// it: its size in bytes, colour type, translucency and distinct colours.
pub fn load_image_bytes(bytes: &[u8]) -> (r: Result<LoadedImage, String>)
    ensures
        match loaded_spec(bytes@) {
            Ok((c, w, h, d)) => r matches Ok(li) && li.rgba.width == w && li.rgba.height == h
                && li.rgba.data@ == d && li.rgba.wf() && li.info.color_type@ == c
                && li.info.file_size == bytes@.len() && li.info.has_alpha == translucent(
                d,
                li.rgba.pixel_count(),
            ) && li.info.unique_colors == pixel_keys(d, li.rgba.pixel_count()).to_set().len(),
            Err(m) => r matches Err(e) && e@ == m,
        },
{
    match decode(bytes) {
        Ok((color_type, w, h, data)) => {
            let mut data = data;
            assert((w as usize) as int * (h as usize) as int * 4 <= data.len()) by (nonlinear_arith)
                requires
                    data.len() >= w as int * h as int * 4,
            ;
            assert(0 <= (w as usize) as int * (h as usize) as int) by (nonlinear_arith);
            assert((w as usize) as int * (h as usize) as int <= (w as usize) as int * (h as usize) as int * 4) by (nonlinear_arith);
            let n = (w as usize) * (h as usize) * 4;
            data.truncate(n);
            let rgba = RgbaPixels { width: w, height: h, data };
            let (has_alpha, unique_colors) = analyze_rgba(&rgba);
            let info = ImageInfo {
                file_size: bytes.len() as u64,
                color_type,
                has_alpha,
                unique_colors,
            };
            Ok(LoadedImage { rgba, info })
        },
        Err(e) => {
            let t = concat_chars(chars_of("Decode error: ").as_slice(), chars_of(e.as_str()).as_slice());
            Err(string_from(t.as_slice()))
        },
    }
}

// ---------------------------------------------------------------------------
// The walk preview frame
// ---------------------------------------------------------------------------

/// The width of the walk preview: each block of three cell columns gains a
/// fourth.
pub open spec fn expanded_width(width: int, cell_w: int) -> int {
    ((width / cell_w) / 3) * 4 * cell_w
}

/// The source column of column `x` of the walk preview: the first three
/// cell columns of each block of four are the block's own, the fourth
/// shows the block's column `frame_col`.
pub open spec fn expanded_source_x(x: int, cell_w: int, frame_col: int) -> int {
    let block = (x / cell_w) / 4;
    let local = (x / cell_w) % 4;
    let within = x % cell_w;
    let col = if local < 3 {
        block * 3 + local
    } else {
        block * 3 + frame_col
    };
    col * cell_w + within
}

/// The source pixel of pixel `p` of the walk preview.
pub open spec fn expanded_source(p: int, width: int, new_width: int, cell_w: int, frame_col: int) -> int {
    (p / new_width) * width + expanded_source_x(p % new_width, cell_w, frame_col)
}

/// A column of the preview reads a column of the image.
proof fn lemma_source_in_range(x: int, cw: int, f: int, w: int)
    requires
        cw > 0,
        0 <= f < 3,
        w >= 0,
        0 <= x < expanded_width(w, cw),
    ensures
        0 <= expanded_source_x(x, cw, f) < w,
{
    let nb = (w / cw) / 3;
    let block = (x / cw) / 4;
    let local = (x / cw) % 4;
    let within = x % cw;
    assert(nb >= 0 && w / cw >= 0) by (nonlinear_arith)
        requires
            cw > 0,
            w >= 0,
            nb == (w / cw) / 3,
    ;
    assert(0 <= x / cw < nb * 4) by (nonlinear_arith)
        requires
            cw > 0,
            0 <= x < nb * 4 * cw,
    ;
    assert(0 <= block < nb);
    assert(0 <= local < 4 && 0 <= within < cw) by (nonlinear_arith)
        requires
            cw > 0,
            x >= 0,
            local == (x / cw) % 4,
            within == x % cw,
    ;
    let col = if local < 3 {
        block * 3 + local
    } else {
        block * 3 + f
    };
    assert(0 <= col < nb * 3);
    assert(0 <= col * cw + within < nb * 3 * cw) by (nonlinear_arith)
        requires
            cw > 0,
            0 <= col < nb * 3,
            0 <= within < cw,
    ;
    assert(nb * 3 * cw <= w) by (nonlinear_arith)
        requires
            cw > 0,
            w >= 0,
            nb == (w / cw) / 3,
    ;
}

/// A pixel of the preview reads a pixel of the image.
proof fn lemma_pixel_in_range(p: int, w: int, h: int, nw: int, cw: int, f: int)
    requires
        cw > 0,
        0 <= f < 3,
        w >= 0,
        nw == expanded_width(w, cw),
        nw > 0,
        0 <= p < nw * h,
    ensures
        0 <= expanded_source(p, w, nw, cw, f) < w * h,
{
    let y = p / nw;
    let x = p % nw;
    assert(0 <= y < h && 0 <= x < nw) by (nonlinear_arith)
        requires
            nw > 0,
            0 <= p < nw * h,
            y == p / nw,
            x == p % nw,
    ;
    lemma_source_in_range(x, cw, f, w);
    let sx = expanded_source_x(x, cw, f);
    assert(0 <= y * w + sx < w * h) by (nonlinear_arith)
        requires
            0 <= y < h,
            0 <= sx < w,
    ;
}

/// The walk preview of `img`: every block of three cell columns followed
/// by a fourth showing the block's column `frame_col`, so the animated
/// frame stands beside the sheet.
pub fn build_expanded_image(img: &RgbaPixels, cell_w: u32, frame_col: u32) -> (r: RgbaPixels)
    requires
        img.wf(),
        cell_w > 0,
        frame_col < 3,
        expanded_width(img.width as int, cell_w as int) <= u32::MAX,
        expanded_width(img.width as int, cell_w as int) * img.height * 4 <= usize::MAX,
    ensures
        r.wf(),
        r.width == expanded_width(img.width as int, cell_w as int),
        r.height == img.height,
        forall|p: int, k: int|
            0 <= p < r.pixel_count() && 0 <= k < 4 ==> #[trigger] r.data@[4 * p + k] == img.data@[4
                * expanded_source(p, img.width as int, r.width as int, cell_w as int, frame_col as int)
                + k],
{
    let w = img.width;
    let h = img.height;
    let nb = (w / cell_w) / 3;
    let new_w_u64: u64 = (nb as u64) * 4 * (cell_w as u64);
    assert(new_w_u64 == expanded_width(w as int, cell_w as int));
    let new_w = new_w_u64 as u32;
    let ghost nw = new_w as int;
    assert(0 <= nw * h) by (nonlinear_arith)
        requires
            nw >= 0,
    ;
    assert(nw * h <= nw * h * 4) by (nonlinear_arith)
        requires
            nw * h >= 0,
    ;
    let total: usize = (new_w as usize) * (h as usize);
    let mut out: Vec<u8> = Vec::new();
    if new_w == 0 {
        assert(nw * h == 0) by (nonlinear_arith)
            requires
                nw == 0,
        ;
        return RgbaPixels { width: new_w, height: h, data: out };
    }
    let mut p: usize = 0;
    while p < total
        invariant
            p <= total,
            total == nw * h,
            nw == expanded_width(w as int, cell_w as int),
            nw > 0,
            new_w as int == nw,
            w == img.width,
            h == img.height,
            cell_w > 0,
            frame_col < 3,
            img.wf(),
            img.data.len() == w as int * h as int * 4,
            out@.len() == 4 * p,
            forall|q: int, k: int|
                0 <= q < p && 0 <= k < 4 ==> #[trigger] out@[4 * q + k] == img.data@[4
                    * expanded_source(q, w as int, nw, cell_w as int, frame_col as int) + k],
        decreases total - p,
    {
        let x = p % (new_w as usize);
        let y = p / (new_w as usize);
        let cw = cell_w as usize;
        let block = (x / cw) / 4;
        let local = (x / cw) % 4;
        let within = x % cw;
        proof {
            lemma_source_in_range(x as int, cw as int, frame_col as int, w as int);
            lemma_pixel_in_range(p as int, w as int, h as int, nw, cw as int, frame_col as int);
            let bi = block as int;
            let ci = cw as int;
            let xi = x as int;
            let wi = w as int;
            assert(bi == (xi / ci) / 4);
            assert(0 <= xi / ci < ((wi / ci) / 3) * 4) by (nonlinear_arith)
                requires
                    ci > 0,
                    0 <= xi < nw,
                    nw == ((wi / ci) / 3) * 4 * ci,
            ;
            assert(0 <= bi < (wi / ci) / 3);
            assert((wi / ci) / 3 * 3 <= wi) by (nonlinear_arith)
                requires
                    ci > 0,
                    wi >= 0,
            ;
        }
        let col = if local < 3 {
            block * 3 + local
        } else {
            block * 3 + (frame_col as usize)
        };
        assert(col * cw + within == expanded_source_x(x as int, cw as int, frame_col as int));
        assert(col * cw + within < w) by (nonlinear_arith)
            requires
                col * cw + within == expanded_source_x(x as int, cw as int, frame_col as int),
                expanded_source_x(x as int, cw as int, frame_col as int) < w,
        ;
        let sx = col * cw + within;
        assert(y * (w as usize) + sx == expanded_source(p as int, w as int, nw, cw as int, frame_col as int));
        let src = y * (w as usize) + sx;
        let ghost before = out@;
        out.push(img.data[4 * src]);
        out.push(img.data[4 * src + 1]);
        out.push(img.data[4 * src + 2]);
        out.push(img.data[4 * src + 3]);
        assert forall|q: int, k: int|
            0 <= q < p + 1 && 0 <= k < 4 implies #[trigger] out@[4 * q + k] == img.data@[4
                * expanded_source(q, w as int, nw, cell_w as int, frame_col as int) + k] by {
            if q < p {
                assert(out@[4 * q + k] == before[4 * q + k]);
            }
        }
        p += 1;
    }
    let r = RgbaPixels { width: new_w, height: h, data: out };
    assert(r.pixel_count() == total);
    r
}

/// Law: in the walk preview, cell column `j` (of four) of block `b` reads,
/// at the same offset `within` in its cell and on the same row `y`, cell
/// column `3 * b + j` of the image for `j < 3` and `3 * b + frame_col` for
/// `j == 3`: every preview block shows only the three source cell columns
/// it stands for.
pub proof fn lemma_preview_block_source(
    y: int,
    b: int,
    j: int,
    within: int,
    width: int,
    new_width: int,
    cell_w: int,
    frame_col: int,
)
    requires
        cell_w > 0,
        0 <= frame_col < 3,
        y >= 0,
        b >= 0,
        0 <= j < 4,
        0 <= within < cell_w,
        (4 * b + j) * cell_w + within < new_width,
    ensures
        expanded_source(y * new_width + (4 * b + j) * cell_w + within, width, new_width, cell_w, frame_col)
            == y * width + (3 * b + (if j < 3 {
            j
        } else {
            frame_col
        })) * cell_w + within,
        3 * b * cell_w <= expanded_source_x((4 * b + j) * cell_w + within, cell_w, frame_col) < (3 * b
            + 3) * cell_w,
{
    let x = (4 * b + j) * cell_w + within;
    assert(x / cell_w == 4 * b + j && x % cell_w == within) by (nonlinear_arith)
        requires
            cell_w > 0,
            x == (4 * b + j) * cell_w + within,
            0 <= within < cell_w,
            4 * b + j >= 0,
    ;
    assert((4 * b + j) / 4 == b && (4 * b + j) % 4 == j);
    assert((y * new_width + x) / new_width == y && (y * new_width + x) % new_width == x) by (
    nonlinear_arith)
        requires
            0 <= x < new_width,
            y >= 0,
    ;
    let col = 3 * b + (if j < 3 {
        j
    } else {
        frame_col
    });
    assert(3 * b * cell_w <= col * cell_w + within < (3 * b + 3) * cell_w) by (nonlinear_arith)
        requires
            cell_w > 0,
            3 * b <= col < 3 * b + 3,
            0 <= within < cell_w,
    ;
}

/// Law: when the cells split the width into a multiple of three columns,
/// the walk preview is four thirds as wide as the image.
pub proof fn lemma_expanded_four_thirds(width: int, cell_w: int)
    requires
        cell_w > 0,
        width >= 0,
        width % cell_w == 0,
        (width / cell_w) % 3 == 0,
    ensures
        expanded_width(width, cell_w) * 3 == width * 4,
{
    let cols = width / cell_w;
    assert(cols * cell_w == width) by (nonlinear_arith)
        requires
            cell_w > 0,
            width % cell_w == 0,
            cols == width / cell_w,
    ;
    assert((cols / 3) * 3 == cols);
    assert(expanded_width(width, cell_w) * 3 == width * 4) by (nonlinear_arith)
        requires
            cols * cell_w == width,
            (cols / 3) * 3 == cols,
            expanded_width(width, cell_w) == (cols / 3) * 4 * cell_w,
    ;
}

} // verus!
