//! The tile encoder: a pixel grid becomes a stream of palette indices, one
//! 8 by 8 tile after the other.

use crate::color::{quantized, GbaColor, TrueColor};
use crate::pal::{
    assigned_slot, first_seen, lemma_first_seen_distinct, lemma_first_seen_prefix,
    lemma_slots_after_valid, slots_after, valid_slots, Pallete,
};
use vstd::arithmetic::div_mod::lemma_fundamental_div_mod;
use vstd::arithmetic::div_mod::lemma_fundamental_div_mod_converse;
use vstd::prelude::*;

verus! {

/// The side of a tile, in pixels.
pub const TILE_SIZE: u32 = 8;

/// The number of palette slots of the 256-colour mode.
pub const PALETTE_SLOTS: usize = 256;

/// Why an image cannot be encoded.
#[derive(PartialEq, Eq, Structural, Copy, Clone, Debug)]
pub enum EncodeError {
    /// The width or the height is not a multiple of the tile size.
    DimensionError,
    /// The image has more distinct hardware colours than the palette has
    /// slots.
    TooManyColors,
}

/// A decoded image: `width` by `height` pixels, kept row by row from the top.
pub struct PixelGrid {
    width: u32,
    height: u32,
    pixels: Vec<TrueColor>,
}

impl View for PixelGrid {
    type V = Seq<TrueColor>;

    /// The pixels in raster order: row 0 from left to right, then row 1.
    closed spec fn view(&self) -> Seq<TrueColor> {
        self.pixels@
    }
}

/// The source pixel, as column and row, that stands at place `k` of the
/// output: tiles follow each other row by row, and so do the pixels within a
/// tile.
pub open spec fn source_of(width: nat, k: int) -> (int, int) {
    let tiles_across = width as int / 8;
    let tile = k / 64;
    let inner = k % 64;
    ((tile % tiles_across) * 8 + inner % 8, (tile / tiles_across) * 8 + inner / 8)
}

/// The place in the output of the source pixel in column `x` of row `y`.
pub open spec fn position_of(width: nat, x: int, y: int) -> int {
    ((y / 8) * (width as int / 8) + x / 8) * 64 + (y % 8) * 8 + x % 8
}

/// The hardware colours of an image in output order. `pixels` holds the
/// image in raster order.
pub open spec fn tile_stream(pixels: Seq<TrueColor>, width: nat) -> Seq<GbaColor> {
    Seq::new(
        pixels.len(),
        |k: int|
            {
                let (x, y) = source_of(width, k);
                quantized(pixels[y * width + x])
            },
    )
}

/// The palette index of each colour of a stream, where slots are allocated in
/// order of first occurrence.
pub open spec fn index_stream(stream: Seq<GbaColor>) -> Seq<u8> {
    Seq::new(stream.len(), |k: int| first_seen(stream).index_of(stream[k]) as u8)
}

impl PixelGrid {
    /// The number of columns.
    pub closed spec fn width(&self) -> nat {
        self.width as nat
    }

    /// The number of rows.
    pub closed spec fn height(&self) -> nat {
        self.height as nat
    }

    /// Well-formedness: there is one pixel for each column of each row.
    pub open spec fn wf(&self) -> bool {
        self@.len() == self.width() * self.height()
    }

    /// The pixel in column `x` of row `y`.
    pub open spec fn pixel_at(&self, x: int, y: int) -> TrueColor {
        self@[y * self.width() + x]
    }

    /// Makes a grid of `pixels`, given in raster order. Returns `None` unless
    /// there are exactly `width * height` of them.
    pub fn new(width: u32, height: u32, pixels: Vec<TrueColor>) -> (grid: Option<PixelGrid>)
        ensures
            grid is Some <==> pixels@.len() == width * height,
            grid matches Some(g) ==> g.wf() && g.width() == width && g.height() == height && g@
                == pixels@,
    {
        assert(width * height <= 0xffff_ffff * 0xffff_ffff) by (nonlinear_arith)
            requires
                0 <= width <= 0xffff_ffff,
                0 <= height <= 0xffff_ffff,
        ;
        let count: u64 = (width as u64) * (height as u64);
        if pixels.len() as u64 == count {
            Some(PixelGrid { width, height, pixels })
        } else {
            None
        }
    }

    /// The width and the height, in pixels.
    pub fn dimensions(&self) -> (dims: (u32, u32))
        ensures
            dims.0 == self.width(),
            dims.1 == self.height(),
    {
        (self.width, self.height)
    }

    /// The pixel in column `x` of row `y`.
    pub fn get_pixel(&self, x: u32, y: u32) -> (pixel: &TrueColor)
        requires
            self.wf(),
            x < self.width(),
            y < self.height(),
        ensures
            *pixel == self.pixel_at(x as int, y as int),
    {
        let count: usize = self.pixels.len();
        proof {
            let w = self.width as int;
            let h = self.height as int;
            assert(0 <= y * w && y * w + x < w * h) by (nonlinear_arith)
                requires
                    0 <= x < w,
                    0 <= y < h,
            ;
            assert(w * h == count);
        }
        let row_start: usize = (y as usize) * (self.width as usize);
        &self.pixels[row_start + (x as usize)]
    }
}

/// The place in the output of pixel (`sub_x`, `sub_y`) of the tile in column
/// `tile_x` of tile row `tile_y`.
spec fn offset_of(tiles_across: int, tile_y: int, tile_x: int, sub_y: int, sub_x: int) -> int {
    (tile_y * tiles_across + tile_x) * 64 + sub_y * 8 + sub_x
}

/// What holds while the stream is scanned: the palette holds the colours of
/// the part that was scanned, in order of first occurrence, and each index
/// written so far names the slot of its colour.
spec fn scanned(stream: Seq<GbaColor>, slots: Seq<GbaColor>, out: Seq<u8>) -> bool {
    &&& out.len() <= stream.len()
    &&& slots == first_seen(stream.take(out.len() as int))
    &&& forall|j: int|
        0 <= j < out.len() ==> out[j] < slots.len() && slots[#[trigger] out[j] as int] == stream[j]
}

proof fn lemma_offset_source(
    width: nat,
    tile_y: int,
    tile_x: int,
    sub_y: int,
    sub_x: int,
)
    requires
        width % 8 == 0,
        0 <= tile_y,
        0 <= tile_x < width as int / 8,
        0 <= sub_y < 8,
        0 <= sub_x < 8,
    ensures
        source_of(width, offset_of(width as int / 8, tile_y, tile_x, sub_y, sub_x)) == (
            tile_x * 8 + sub_x,
            tile_y * 8 + sub_y,
        ),
        position_of(width, tile_x * 8 + sub_x, tile_y * 8 + sub_y) == offset_of(
            width as int / 8,
            tile_y,
            tile_x,
            sub_y,
            sub_x,
        ),
        0 <= offset_of(width as int / 8, tile_y, tile_x, sub_y, sub_x),
{
    let across = width as int / 8;
    let tile = tile_y * across + tile_x;
    let inner = sub_y * 8 + sub_x;
    assert(0 <= tile_y * across) by (nonlinear_arith)
        requires
            0 <= tile_y,
            0 <= across,
    ;
    lemma_fundamental_div_mod_converse(tile * 64 + inner, 64, tile, inner);
    lemma_fundamental_div_mod_converse(tile, across, tile_y, tile_x);
}

proof fn lemma_offset_in_range(
    tiles_across: int,
    tiles_down: int,
    tile_y: int,
    tile_x: int,
    sub_y: int,
    sub_x: int,
)
    requires
        0 <= tile_y < tiles_down,
        0 <= tile_x < tiles_across,
        0 <= sub_y < 8,
        0 <= sub_x < 8,
    ensures
        0 <= offset_of(tiles_across, tile_y, tile_x, sub_y, sub_x) < (8 * tiles_across) * (8
            * tiles_down),
{
    assert((tile_y + 1) * tiles_across <= tiles_down * tiles_across && 0 <= tile_y * tiles_across
        && (tile_y + 1) * tiles_across == tile_y * tiles_across + tiles_across && (8
        * tiles_across) * (8 * tiles_down) == 64 * (tiles_down * tiles_across))
        by (nonlinear_arith)
        requires
            0 <= tile_y < tiles_down,
            0 <= tiles_across,
    ;
}

/// The first place of a tile row is the place after the last tile of the
/// row above.
proof fn lemma_offset_next_row(tiles_across: int, tile_y: int)
    ensures
        offset_of(tiles_across, tile_y + 1, 0, 0, 0) == offset_of(
            tiles_across,
            tile_y,
            tiles_across,
            0,
            0,
        ),
{
    assert((tile_y + 1) * tiles_across == tile_y * tiles_across + tiles_across)
        by (nonlinear_arith);
}

/// One more pixel: the index that the palette returned for it extends the
/// scan by one place.
proof fn lemma_scan_step(stream: Seq<GbaColor>, slots: Seq<GbaColor>, out: Seq<u8>, slot: nat)
    requires
        scanned(stream, slots, out),
        valid_slots(slots, 256),
        out.len() < stream.len(),
        assigned_slot(slots, 256, stream[out.len() as int]) == Some(slot),
    ensures
        slot < 256,
        scanned(stream, slots_after(slots, 256, stream[out.len() as int]), out.push(slot as u8)),
{
    let k = out.len() as int;
    let color = stream[k];
    let later = slots_after(slots, 256, color);
    let longer = out.push(slot as u8);
    lemma_slots_after_valid(slots, 256, color);
    assert(stream.take(k + 1).drop_last() =~= stream.take(k));
    assert(stream.take(k + 1).last() == color);
    assert(later == first_seen(stream.take(k + 1)));
    assert forall|j: int| 0 <= j < longer.len() implies longer[j] < later.len() && later[#[trigger] longer[j] as int]
        == stream[j] by {
        if j < k {
            assert(longer[j] == out[j]);
            assert(slots[out[j] as int] == stream[j]);
        }
    }
}

/// A colour that finds no slot: the whole stream has more than 256 colours.
proof fn lemma_scan_overflow(stream: Seq<GbaColor>, slots: Seq<GbaColor>, out: Seq<u8>)
    requires
        scanned(stream, slots, out),
        valid_slots(slots, 256),
        out.len() < stream.len(),
        assigned_slot(slots, 256, stream[out.len() as int]) is None,
    ensures
        first_seen(stream).len() > 256,
{
    let k = out.len() as int;
    lemma_slots_after_valid(slots, 256, stream[k]);
    assert(stream.take(k + 1).drop_last() =~= stream.take(k));
    assert(stream.take(k + 1).last() == stream[k]);
    assert(first_seen(stream.take(k + 1)).len() == 257);
    lemma_first_seen_prefix(stream, k + 1);
}

/// The end of the scan: the palette and the indices are those of the whole
/// stream.
proof fn lemma_scan_done(stream: Seq<GbaColor>, slots: Seq<GbaColor>, out: Seq<u8>)
    requires
        scanned(stream, slots, out),
        out.len() == stream.len(),
    ensures
        slots == first_seen(stream),
        out == index_stream(stream),
{
    assert(stream.take(stream.len() as int) =~= stream);
    lemma_first_seen_distinct(stream);
    assert forall|j: int| 0 <= j < out.len() implies out[j] == index_stream(stream)[j] by {
        let i = slots.index_of(stream[j]);
        assert(slots[out[j] as int] == stream[j]);
        assert(i == out[j]);
    }
    assert(out =~= index_stream(stream));
}

/// Encodes an image for the 256-colour tiled mode.
///
/// The image is walked tile by tile, the tiles row by row from the top left,
/// and each tile row by row. Every pixel is quantized and looked up in a
/// fresh palette of 256 slots; the slot numbers, in that order, are the
/// pixel stream. The palette is returned with the stream.
///
/// Fails with `DimensionError`, before any pixel is read, unless the width
/// and the height are multiples of 8; and with `TooManyColors` when the image
/// holds more than 256 distinct hardware colours.
#[verifier::loop_isolation(false)]
pub fn convert_image(img: PixelGrid) -> (result: Result<(Vec<u8>, Pallete), EncodeError>)
    requires
        img.wf(),
    ensures
        match result {
            Ok((pixels, palette)) => {
                &&& img.width() % 8 == 0 && img.height() % 8 == 0
                &&& palette.wf()
                &&& palette.capacity() == 256
                &&& palette@ == first_seen(tile_stream(img@, img.width()))
                &&& pixels@ == index_stream(tile_stream(img@, img.width()))
                &&& pixels@.len() == img.width() * img.height()
            },
            Err(EncodeError::DimensionError) => img.width() % 8 != 0 || img.height() % 8 != 0,
            Err(EncodeError::TooManyColors) => {
                &&& img.width() % 8 == 0 && img.height() % 8 == 0
                &&& first_seen(tile_stream(img@, img.width())).len() > 256
            },
        },
{
    let (width, height) = img.dimensions();
    if width % TILE_SIZE != 0 || height % TILE_SIZE != 0 {
        return Err(EncodeError::DimensionError);
    }
    let mut palette = Pallete::new(PALETTE_SLOTS);
    let mut out_pixels: Vec<u8> = Vec::new();
    let tiles_x: u32 = width / TILE_SIZE;
    let tiles_y: u32 = height / TILE_SIZE;
    let ghost stream = tile_stream(img@, img.width());
    let ghost across = tiles_x as int;
    proof {
        assert(stream.take(0) =~= Seq::<GbaColor>::empty());
        assert(width as int * height as int == (8 * across) * (8 * tiles_y as int))
            by (nonlinear_arith)
            requires
                width as int == 8 * across,
                height as int == 8 * tiles_y as int,
        ;
    }
    let mut tile_y: u32 = 0;
    while tile_y < tiles_y
        invariant
            tile_y <= tiles_y,
            palette.wf(),
            palette.capacity() == 256,
            scanned(stream, palette@, out_pixels@),
            out_pixels@.len() == offset_of(across, tile_y as int, 0, 0, 0),
        decreases tiles_y - tile_y,
    {
        let mut tile_x: u32 = 0;
        while tile_x < tiles_x
            invariant
                tile_x <= tiles_x,
                palette.wf(),
                palette.capacity() == 256,
                scanned(stream, palette@, out_pixels@),
                out_pixels@.len() == offset_of(across, tile_y as int, tile_x as int, 0, 0),
            decreases tiles_x - tile_x,
        {
            let mut sub_y: u32 = 0;
            while sub_y < TILE_SIZE
                invariant
                    sub_y <= 8,
                    palette.wf(),
                    palette.capacity() == 256,
                    scanned(stream, palette@, out_pixels@),
                    out_pixels@.len() == offset_of(
                        across,
                        tile_y as int,
                        tile_x as int,
                        sub_y as int,
                        0,
                    ),
                decreases 8 - sub_y,
            {
                let mut sub_x: u32 = 0;
                while sub_x < TILE_SIZE
                    invariant
                        sub_x <= 8,
                        palette.wf(),
                        palette.capacity() == 256,
                        scanned(stream, palette@, out_pixels@),
                        out_pixels@.len() == offset_of(
                            across,
                            tile_y as int,
                            tile_x as int,
                            sub_y as int,
                            sub_x as int,
                        ),
                    decreases 8 - sub_x,
                {
                    let src_x: u32 = sub_x + tile_x * TILE_SIZE;
                    let src_y: u32 = sub_y + tile_y * TILE_SIZE;
                    proof {
                        lemma_offset_source(
                            img.width(),
                            tile_y as int,
                            tile_x as int,
                            sub_y as int,
                            sub_x as int,
                        );
                        lemma_offset_in_range(
                            across,
                            tiles_y as int,
                            tile_y as int,
                            tile_x as int,
                            sub_y as int,
                            sub_x as int,
                        );
                    }
                    let pixel = img.get_pixel(src_x, src_y);
                    let ghost before = palette@;
                    assert(stream[out_pixels@.len() as int] == quantized(*pixel));
                    match palette.lookup_or_insert(*pixel) {
                        None => {
                            proof {
                                lemma_scan_overflow(stream, before, out_pixels@);
                            }
                            return Err(EncodeError::TooManyColors);
                        },
                        Some(value) => {
                            proof {
                                lemma_scan_step(stream, before, out_pixels@, value as nat);
                            }
                            out_pixels.push(value as u8);
                        },
                    }
                    sub_x += 1;
                }
                sub_y += 1;
            }
            tile_x += 1;
        }
        proof {
            lemma_offset_next_row(across, tile_y as int);
        }
        tile_y += 1;
    }
    proof {
        assert(out_pixels@.len() == stream.len()) by (nonlinear_arith)
            requires
                out_pixels@.len() == (tiles_y as int * across + 0) * 64 + 0 * 8 + 0,
                stream.len() == (8 * across) * (8 * tiles_y as int),
        ;
        lemma_scan_done(stream, palette@, out_pixels@);
    }
    Ok((out_pixels, palette))
}

/// The output order is a rearrangement of the image: every place of the
/// output shows one source pixel inside the image, and every source pixel
/// stands at exactly one place of the output.
pub proof fn lemma_tile_order_bijective(width: nat, height: nat)
    requires
        width % 8 == 0,
        height % 8 == 0,
    ensures
        forall|k: int|
            0 <= k < width * height ==> {
                let (x, y) = #[trigger] source_of(width, k);
                &&& 0 <= x < width
                &&& 0 <= y < height
                &&& position_of(width, x, y) == k
            },
        forall|x: int, y: int|
            0 <= x < width && 0 <= y < height ==> {
                let k = #[trigger] position_of(width, x, y);
                &&& 0 <= k < width * height
                &&& source_of(width, k) == (x, y)
            },
{
    let across = width as int / 8;
    let down = height as int / 8;
    assert(width * height == (8 * across) * (8 * down) && (8 * across) * (8 * down) == 64 * (across
        * down)) by (nonlinear_arith)
        requires
            width == 8 * across,
            height == 8 * down,
    ;
    assert forall|k: int| 0 <= k < width * height implies {
        let (x, y) = #[trigger] source_of(width, k);
        &&& 0 <= x < width
        &&& 0 <= y < height
        &&& position_of(width, x, y) == k
    } by {
        let tile = k / 64;
        let inner = k % 64;
        assert(across > 0) by (nonlinear_arith)
            requires
                0 <= k < 64 * (across * down),
                0 <= across,
        ;
        lemma_fundamental_div_mod(tile, across);
        let tile_x = tile % across;
        let tile_y = tile / across;
        assert(0 <= tile_y < down) by (nonlinear_arith)
            requires
                0 <= tile < across * down,
                tile == across * tile_y + tile_x,
                0 <= tile_x < across,
        ;
        lemma_offset_source(width, tile_y, tile_x, inner / 8, inner % 8);
        assert(across * tile_y == tile_y * across) by (nonlinear_arith);
    }
    assert forall|x: int, y: int| 0 <= x < width && 0 <= y < height implies {
        let k = #[trigger] position_of(width, x, y);
        &&& 0 <= k < width * height
        &&& source_of(width, k) == (x, y)
    } by {
        lemma_offset_source(width, y / 8, x / 8, y % 8, x % 8);
        lemma_offset_in_range(across, down, y / 8, x / 8, y % 8, x % 8);
    }
}

/// Where a source pixel goes: in an image of whole tiles, the pixel in
/// column `x` of row `y` stands in the stream at the place that
/// `position_of` gives.
pub proof fn lemma_stream_shows_pixel(
    pixels: Seq<TrueColor>,
    width: nat,
    height: nat,
    x: int,
    y: int,
)
    requires
        width % 8 == 0,
        height % 8 == 0,
        pixels.len() == width * height,
        0 <= x < width,
        0 <= y < height,
    ensures
        0 <= position_of(width, x, y) < pixels.len(),
        tile_stream(pixels, width)[position_of(width, x, y)] == quantized(pixels[y * width + x]),
{
    lemma_tile_order_bijective(width, height);
    assert(source_of(width, position_of(width, x, y)) == (x, y));
}

} // verus!
