use noto_sans_mono_bitmap::{FontWeight, RasterHeight, get_raster, get_raster_width};
use vstd::prelude::*;
use vstd::std_specs::bits::u32_trailing_zeros;

verus! {

/// Columns a tab stop spans.
pub const TAB_WIDTH: usize = 4;

#[derive(Clone, Copy, Debug, PartialEq, Eq, Structural)]
pub enum PixelFormat {
    Rgb,
    Bgr,
    Bitmask,
}

#[derive(Clone, Copy, Debug, PartialEq, Eq, Structural)]
pub struct FramebufferInfo {
    pub width: u32,
    pub height: u32,
    pub stride_pixels: u32,
    pub bytes_per_pixel: u32,
    pub pixel_format: PixelFormat,
    pub red_mask: u32,
    pub green_mask: u32,
    pub blue_mask: u32,
    pub reserved_mask: u32,
}

#[derive(Clone, Copy, Debug, PartialEq, Eq, Structural)]
pub enum FramebufferError {
    InvalidGeometry,
    BufferTooSmall,
}

/// A byte-addressable framebuffer surface. Implementations keep the hardware-specific
/// memory access policy (ordinary host memory or volatile MMIO) outside the text model.
pub trait Framebuffer {
    /// Number of bytes of the surface.
    spec fn byte_len(&self) -> usize;

    /// The byte at `offset`.
    spec fn byte_at(&self, offset: usize) -> u8;

    fn read_byte(&self, offset: usize) -> (r: u8)
        requires
            offset < self.byte_len(),
        ensures
            r == self.byte_at(offset),
    ;

    fn write_byte(&mut self, offset: usize, value: u8)
        requires
            offset < old(self).byte_len(),
        ensures
            final(self).byte_len() == old(self).byte_len(),
            final(self).byte_at(offset) == value,
            forall|i: usize|
                i < old(self).byte_len() && i != offset ==> final(self).byte_at(i) == old(
                    self,
                ).byte_at(i),
    ;
}

/// The bytes of a framebuffer surface.
pub open spec fn surface_bytes<B: Framebuffer>(framebuffer: &B) -> Seq<u8> {
    Seq::new(framebuffer.byte_len() as nat, |i: int| framebuffer.byte_at(i as usize))
}

/// A framebuffer held in ordinary memory.
pub struct SliceFramebuffer<'a> {
    bytes: &'a mut [u8],
}

impl<'a> SliceFramebuffer<'a> {
    pub fn new(bytes: &'a mut [u8]) -> (r: Self)
        ensures
            surface_bytes(&r) == old(bytes)@,
    {
        let _len = bytes.len();
        let r = SliceFramebuffer { bytes };
        assert(surface_bytes(&r) =~= r.bytes@);
        r
    }
}

impl Framebuffer for SliceFramebuffer<'_> {
    closed spec fn byte_len(&self) -> usize {
        self.bytes@.len() as usize
    }

    closed spec fn byte_at(&self, offset: usize) -> u8 {
        self.bytes@[offset as int]
    }

    fn read_byte(&self, offset: usize) -> (r: u8) {
        self.bytes[offset]
    }

    fn write_byte(&mut self, offset: usize, value: u8) {
        self.bytes[offset] = value;
    }
}

/// Width in pixels of one glyph cell.
pub open spec fn glyph_width() -> int {
    7
}

/// Height in pixels of one glyph cell.
pub open spec fn glyph_height() -> int {
    16
}

/// The intensity raster of `c` in the console font (regular weight, 16-pixel cells):
/// one sequence per pixel row, or `None` where the font has no glyph.
pub uninterp spec fn font_raster(c: char) -> Option<Seq<Seq<u8>>>;

/// The glyph raster that `noto_sans_mono_bitmap::get_raster` gives for `c` at regular weight
/// and 16-pixel height, copied row by row. The contract claims that the result is the named
/// raster, that the crate has a glyph for every printable ASCII character (its default
/// basic-latin range), and that a glyph is 16 rows of 7 intensities each, as the crate's
/// size-16 tables are.
#[verifier::external_body]
fn glyph_raster(c: char) -> (r: Option<Vec<Vec<u8>>>)
    ensures
        r.deep_view() == font_raster(c),
        (' ' <= c <= '~') ==> r is Some,
        r matches Some(rows) ==> rows@.len() == 16 && forall|i: int|
            0 <= i < 16 ==> (#[trigger] rows@[i])@.len() == 7,
{
    get_raster(c, FontWeight::Regular, RasterHeight::Size16).map(
        |glyph| glyph.raster().iter().map(|row| row.to_vec()).collect(),
    )
}

/// Width of a glyph cell as `noto_sans_mono_bitmap::get_raster_width` reports it for regular
/// weight at 16-pixel height; the contract claims the crate's `RASTER_WIDTH` of 7.
#[verifier::external_body]
fn glyph_cell_width() -> (r: usize)
    ensures
        r == glyph_width(),
{
    get_raster_width(FontWeight::Regular, RasterHeight::Size16)
}

/// Height of a glyph cell as `noto_sans_mono_bitmap::RasterHeight::Size16.val()` reports it;
/// the contract claims 16.
#[verifier::external_body]
fn glyph_cell_height() -> (r: usize)
    ensures
        r == glyph_height(),
{
    RasterHeight::Size16.val()
}

/// Bytes in one framebuffer row, padding included.
pub open spec fn row_bytes(info: FramebufferInfo) -> int {
    info.stride_pixels * 4
}

/// Bytes the framebuffer's rows take up.
pub open spec fn frame_bytes(info: FramebufferInfo) -> int {
    info.height * row_bytes(info)
}

/// Pixel row of byte `o`.
pub open spec fn row_of(info: FramebufferInfo, o: int) -> int {
    o / row_bytes(info)
}

/// Pixel column of byte `o`.
pub open spec fn column_of(info: FramebufferInfo, o: int) -> int {
    (o % row_bytes(info)) / 4
}

/// Byte `o` belongs to a pixel on screen rather than to row padding or beyond the rows.
pub open spec fn visible(info: FramebufferInfo, o: int) -> bool {
    0 <= o < frame_bytes(info) && column_of(info, o) < info.width
}

/// `intensity` scaled from 0..=255 to the range of the colour channel `mask`, placed at the
/// mask's bits.
pub open spec fn scaled_channel(intensity: u8, mask: u32) -> u32 {
    if mask == 0 {
        0
    } else {
        let shift = u32_trailing_zeros(mask);
        let max = mask >> shift;
        ((((intensity * max + 127) / 255) as u32) << shift) & mask
    }
}

/// Byte `k` of the pixel that shows grey level `intensity`.
pub open spec fn pixel_byte(info: FramebufferInfo, intensity: u8, k: int) -> u8 {
    match info.pixel_format {
        PixelFormat::Bitmask => {
            let pixel = scaled_channel(intensity, info.red_mask) | scaled_channel(
                intensity,
                info.green_mask,
            ) | scaled_channel(intensity, info.blue_mask);
            (pixel >> ((8 * k) as u32)) as u8
        },
        _ => if k < 3 {
            intensity
        } else {
            0
        },
    }
}

/// `content` with the pixel at (`x`, `y`) set to grey level `intensity`.
pub open spec fn painted(content: Seq<u8>, info: FramebufferInfo, x: int, y: int, intensity: u8) -> Seq<u8> {
    Seq::new(
        content.len(),
        |o: int|
            if x < info.width && y < info.height && o < frame_bytes(info) && row_of(info, o) == y
                && column_of(info, o) == x {
                pixel_byte(info, intensity, o % 4)
            } else {
                content[o]
            },
    )
}

/// The bytes at offsets `y * row + x * 4 .. + 4` are exactly those of pixel (`x`, `y`), and
/// byte `k` of that pixel lies at offset `k` within it.
proof fn lemma_pixel_bytes(stride: int, x: int, y: int, o: int)
    requires
        0 <= x < stride,
        0 <= y,
        0 <= o,
    ensures
        (o / (stride * 4) == y && (o % (stride * 4)) / 4 == x) <==> (y * (stride * 4) + x * 4
            <= o < y * (stride * 4) + x * 4 + 4),
        (y * (stride * 4) + x * 4 <= o < y * (stride * 4) + x * 4 + 4) ==> o % 4 == o - (y * (
        stride * 4) + x * 4),
{
    let s4 = stride * 4;
    let base = y * s4 + x * 4;
    assert(y * s4 == (y * stride) * 4) by (nonlinear_arith)
        requires
            s4 == stride * 4,
    ;
    if base <= o < base + 4 {
        let k = o - base;
        vstd::arithmetic::div_mod::lemma_fundamental_div_mod_converse(o, s4, y, x * 4 + k);
        vstd::arithmetic::div_mod::lemma_fundamental_div_mod_converse(x * 4 + k, 4, x, k);
        vstd::arithmetic::div_mod::lemma_fundamental_div_mod_converse(o, 4, y * stride + x, k);
    }
    if o / s4 == y && (o % s4) / 4 == x {
        vstd::arithmetic::div_mod::lemma_fundamental_div_mod(o, s4);
        vstd::arithmetic::div_mod::lemma_fundamental_div_mod(o % s4, 4);
        assert(0 <= o % s4 < s4) by {
            vstd::arithmetic::div_mod::lemma_mod_bound(o, s4);
        }
        assert(0 <= (o % s4) % 4 < 4) by {
            vstd::arithmetic::div_mod::lemma_mod_bound(o % s4, 4);
        }
        assert(s4 * (o / s4) == y * s4) by (nonlinear_arith)
            requires
                o / s4 == y,
        ;
    }
}

/// The offset of pixel (`x`, `y`) lies inside the rows when the pixel is on screen.
proof fn lemma_pixel_in_frame(stride: int, height: int, x: int, y: int)
    requires
        0 <= x < stride,
        0 <= y < height,
    ensures
        y * (stride * 4) + x * 4 + 4 <= height * (stride * 4),
{
    assert(y * (stride * 4) + x * 4 + 4 <= height * (stride * 4)) by (nonlinear_arith)
        requires
            0 <= x < stride,
            0 <= y < height,
    ;
}


/// Splits an offset into its row and the byte within the row.
proof fn lemma_split(s4: int, o: int)
    requires
        s4 > 0,
        o >= 0,
    ensures
        o == (o / s4) * s4 + o % s4,
        0 <= o % s4 < s4,
        o / s4 >= 0,
{
    vstd::arithmetic::div_mod::lemma_fundamental_div_mod(o, s4);
    vstd::arithmetic::div_mod::lemma_mod_bound(o, s4);
    vstd::arithmetic::div_mod::lemma_div_pos_is_pos(o, s4);
    assert(s4 * (o / s4) == (o / s4) * s4) by (nonlinear_arith);
}

/// The row and the byte within the row determine the offset.
proof fn lemma_join(s4: int, r: int, c: int)
    requires
        s4 > 0,
        r >= 0,
        0 <= c < s4,
    ensures
        (r * s4 + c) / s4 == r,
        (r * s4 + c) % s4 == c,
        r * s4 + c >= 0,
{
    vstd::arithmetic::div_mod::lemma_fundamental_div_mod_converse(r * s4 + c, s4, r, c);
    assert(r * s4 >= 0) by (nonlinear_arith)
        requires
            r >= 0,
            s4 > 0,
    ;
}

/// An offset inside the rows lies in a row of the screen.
proof fn lemma_row_bound(info: FramebufferInfo, o: int)
    requires
        info.stride_pixels > 0,
        0 <= o < frame_bytes(info),
    ensures
        0 <= row_of(info, o) < info.height,
        0 <= column_of(info, o) < info.stride_pixels,
{
    let s4 = row_bytes(info);
    lemma_split(s4, o);
    if row_of(info, o) >= info.height {
        assert((o / s4) * s4 >= info.height * s4) by (nonlinear_arith)
            requires
                o / s4 >= info.height,
                s4 > 0,
        ;
    }
    assert((o % s4) / 4 < info.stride_pixels) by {
        vstd::arithmetic::div_mod::lemma_div_is_ordered(o % s4, s4 - 1, 4);
        assert((s4 - 1) / 4 == info.stride_pixels - 1);
    }
}

/// A visible byte lies within the first `4 * width` bytes of its row.
proof fn lemma_visible_byte(info: FramebufferInfo, o: int)
    requires
        info.stride_pixels > 0,
        0 <= o,
    ensures
        column_of(info, o) < info.width <==> o % row_bytes(info) < 4 * info.width,
{
    lemma_split(row_bytes(info), o);
}

/// `content` with every on-screen row moved up one glyph cell and the freed bottom cell
/// row cleared; padding bytes and bytes past the rows are kept.
pub open spec fn scrolled(content: Seq<u8>, info: FramebufferInfo) -> Seq<u8> {
    Seq::new(
        content.len(),
        |o: int|
            if visible(info, o) {
                if row_of(info, o) + glyph_height() < info.height {
                    content[o + glyph_height() * row_bytes(info)]
                } else {
                    0
                }
            } else {
                content[o]
            },
    )
}

/// `before` with the on-screen bytes of the first `rows` rows, and of the first `bytes`
/// bytes of the next, taken from one glyph cell row further down.
spec fn shifted_upto(before: Seq<u8>, info: FramebufferInfo, rows: int, bytes: int) -> Seq<u8> {
    Seq::new(
        before.len(),
        |o: int|
            if visible(info, o) && (row_of(info, o) < rows || (row_of(info, o) == rows && o
                % row_bytes(info) < bytes)) {
                before[o + glyph_height() * row_bytes(info)]
            } else {
                before[o]
            },
    )
}

/// `mid` with the on-screen bytes of rows `from .. rows`, and of the first `bytes` bytes of
/// row `rows`, cleared.
spec fn cleared_upto(mid: Seq<u8>, info: FramebufferInfo, from: int, rows: int, bytes: int) -> Seq<
    u8,
> {
    Seq::new(
        mid.len(),
        |o: int|
            if visible(info, o) && row_of(info, o) >= from && (row_of(info, o) < rows || (row_of(
                info,
                o,
            ) == rows && o % row_bytes(info) < bytes)) {
                0
            } else {
                mid[o]
            },
    )
}

/// `content` with the first `n` pixels (row by row) of the glyph `raster` drawn in the cell
/// whose top left pixel is (`cx`, `cy`); pixels off screen are skipped.
pub open spec fn drawn_upto(
    content: Seq<u8>,
    info: FramebufferInfo,
    cx: int,
    cy: int,
    raster: Seq<Seq<u8>>,
    n: int,
) -> Seq<u8> {
    Seq::new(
        content.len(),
        |o: int|
            {
                let gx = column_of(info, o) - cx;
                let gy = row_of(info, o) - cy;
                if 0 <= o < frame_bytes(info) && column_of(info, o) < info.width && 0 <= gx
                    < glyph_width() && 0 <= gy < glyph_height() && gy * glyph_width() + gx < n {
                    pixel_byte(info, raster[gy][gx], o % 4)
                } else {
                    content[o]
                }
            },
    )
}

/// `content` with the glyph `raster` drawn in the cell whose top left pixel is (`cx`, `cy`).
pub open spec fn drawn(
    content: Seq<u8>,
    info: FramebufferInfo,
    cx: int,
    cy: int,
    raster: Seq<Seq<u8>>,
) -> Seq<u8> {
    drawn_upto(content, info, cx, cy, raster, glyph_width() * glyph_height())
}

/// The console font's raster for `c`.
pub open spec fn glyph_of(c: char) -> Seq<Seq<u8>> {
    match font_raster(c) {
        Some(raster) => raster,
        None => Seq::empty(),
    }
}

/// The screen once the cursor has moved to the start of the next line, scrolling when it
/// was on the last one.
pub open spec fn new_line_screen(sc: Screen) -> Screen {
    if sc.row + 1 == sc.rows {
        Screen { column: 0, content: scrolled(sc.content, sc.info), ..sc }
    } else {
        Screen { column: 0, row: sc.row + 1, ..sc }
    }
}

/// The screen once `c` has been drawn at the cursor, wrapping first when the line is full.
pub open spec fn glyph_screen(sc: Screen, c: char) -> Screen {
    let start = if sc.column == sc.columns {
        new_line_screen(sc)
    } else {
        sc
    };
    Screen {
        content: drawn(
            start.content,
            start.info,
            start.column * glyph_width(),
            start.row * glyph_height(),
            glyph_of(c),
        ),
        column: start.column + 1,
        ..start
    }
}

/// The screen once `n` spaces have been written.
pub open spec fn spaces_screen(sc: Screen, n: nat) -> Screen
    decreases n,
{
    if n == 0 {
        sc
    } else {
        spaces_screen(glyph_screen(sc, ' '), (n - 1) as nat)
    }
}

/// The screen once byte `b` has been written: a line feed starts a new line, a carriage
/// return goes back to the line's start, a tab writes spaces up to the next multiple of
/// four columns, printable ASCII is drawn, and any other byte is drawn as `?`.
pub open spec fn byte_screen(sc: Screen, b: u8) -> Screen {
    if b == 10 {
        new_line_screen(sc)
    } else if b == 13 {
        Screen { column: 0, ..sc }
    } else if b == 9 {
        spaces_screen(sc, (TAB_WIDTH - sc.column % (TAB_WIDTH as nat)) as nat)
    } else if 0x20 <= b <= 0x7e {
        glyph_screen(sc, b as char)
    } else {
        glyph_screen(sc, '?')
    }
}

/// The screen once `bytes` have been written one after another.
pub open spec fn text_screen(sc: Screen, bytes: Seq<u8>) -> Screen
    decreases bytes.len(),
{
    if bytes.len() == 0 {
        sc
    } else {
        byte_screen(text_screen(sc, bytes.drop_last()), bytes.last())
    }
}


/// Writing `n` spaces on a line with room for them moves the cursor `n` columns right on
/// the same line, with the rest of the screen's layout unchanged.
proof fn lemma_spaces_advance(sc: Screen, n: nat)
    requires
        sc.column + n <= sc.columns,
    ensures
        spaces_screen(sc, n).column == sc.column + n,
        spaces_screen(sc, n).row == sc.row,
        spaces_screen(sc, n).columns == sc.columns,
        spaces_screen(sc, n).rows == sc.rows,
        spaces_screen(sc, n).info == sc.info,
    decreases n,
{
    if n > 0 {
        lemma_spaces_advance(glyph_screen(sc, ' '), (n - 1) as nat);
    }
}

/// A tab moves the cursor to the next multiple of four columns after it, on the same line,
/// when that column is on the line.
pub proof fn lemma_tab_stop(sc: Screen)
    requires
        sc.column - sc.column % 4 + 4 <= sc.columns,
    ensures
        byte_screen(sc, 9).column == sc.column - sc.column % 4 + 4,
        byte_screen(sc, 9).column % 4 == 0,
        sc.column < byte_screen(sc, 9).column <= sc.column + 4,
        byte_screen(sc, 9).row == sc.row,
{
    lemma_spaces_advance(sc, (TAB_WIDTH - sc.column % (TAB_WIDTH as nat)) as nat);
}

/// `after` agrees with `before` on every byte that is not on screen, and has its length.
pub open spec fn keeps_offscreen_bytes(info: FramebufferInfo, before: Seq<u8>, after: Seq<u8>) -> bool {
    &&& after.len() == before.len()
    &&& forall|o: int| 0 <= o < before.len() && !visible(info, o) ==> after[o] == before[o]
}

proof fn lemma_byte_keeps_offscreen(sc: Screen, b: u8)
    ensures
        keeps_offscreen_bytes(sc.info, sc.content, byte_screen(sc, b).content),
        byte_screen(sc, b).info == sc.info,
{
    if b == 9 {
        lemma_spaces_keep_offscreen(sc, (TAB_WIDTH - sc.column % (TAB_WIDTH as nat)) as nat);
    }
}

proof fn lemma_spaces_keep_offscreen(sc: Screen, n: nat)
    ensures
        keeps_offscreen_bytes(sc.info, sc.content, spaces_screen(sc, n).content),
        spaces_screen(sc, n).info == sc.info,
    decreases n,
{
    if n > 0 {
        lemma_spaces_keep_offscreen(glyph_screen(sc, ' '), (n - 1) as nat);
    }
}

/// Writing text to a console changes only bytes of on-screen pixels: row padding and bytes
/// past the rows keep their values, and the framebuffer keeps its length.
pub proof fn lemma_text_keeps_offscreen_bytes(sc: Screen, bytes: Seq<u8>)
    ensures
        keeps_offscreen_bytes(sc.info, sc.content, text_screen(sc, bytes).content),
        text_screen(sc, bytes).info == sc.info,
    decreases bytes.len(),
{
    if bytes.len() > 0 {
        lemma_text_keeps_offscreen_bytes(sc, bytes.drop_last());
        lemma_byte_keeps_offscreen(text_screen(sc, bytes.drop_last()), bytes.last());
    }
}

/// Colour channel value for `intensity` under `mask`.
pub fn scale_to_mask(intensity: u8, mask: u32) -> (r: u32)
    ensures
        r == scaled_channel(intensity, mask),
{
    if mask == 0 {
        return 0;
    }
    let shift = mask.trailing_zeros();
    proof {
        vstd::std_specs::bits::axiom_u32_trailing_zeros(mask);
    }
    let max = mask >> shift;
    assert(intensity as u64 * max as u64 <= 255 * 0xffff_ffff) by (nonlinear_arith)
        requires
            intensity <= 255,
            max <= 0xffff_ffff,
    ;
    let wide = (intensity as u64 * max as u64 + 127) / 255;
    assert(wide <= max) by (nonlinear_arith)
        requires
            wide == (intensity as u64 * max as u64 + 127) / 255,
            intensity <= 255,
    ;
    ((wide as u32) << shift) & mask
}

/// A text console drawn onto a framebuffer with a fixed-cell font.
pub struct Console<B: Framebuffer> {
    framebuffer: B,
    info: FramebufferInfo,
    columns: usize,
    rows: usize,
    column: usize,
    row: usize,
}

pub type FramebufferConsole<'a> = Console<SliceFramebuffer<'a>>;

/// What a console shows and where its cursor is.
pub struct Screen {
    pub info: FramebufferInfo,
    pub columns: nat,
    pub rows: nat,
    pub column: nat,
    pub row: nat,
    pub content: Seq<u8>,
}

/// Geometry that `Console::from_framebuffer` accepts: four bytes per pixel, a nonempty
/// screen, and rows at least as wide as the screen.
pub open spec fn geometry_ok(info: FramebufferInfo) -> bool {
    &&& info.width != 0
    &&& info.height != 0
    &&& info.stride_pixels >= info.width
    &&& info.bytes_per_pixel == 4
    &&& row_bytes(info) <= usize::MAX
    &&& frame_bytes(info) <= usize::MAX
}

impl<B: Framebuffer> Console<B> {
    /// The console's geometry is valid, its rows fit the framebuffer and the cursor is on
    /// screen.
    pub closed spec fn wf(&self) -> bool {
        &&& geometry_ok(self.info)
        &&& frame_bytes(self.info) <= surface_bytes(&self.framebuffer).len()
        &&& self.columns == self.info.width as int / glyph_width()
        &&& self.rows == self.info.height as int / glyph_height()
        &&& self.columns > 0
        &&& self.rows > 0
        &&& self.column <= self.columns
        &&& self.row < self.rows
    }

    /// The console's screen: its geometry, cursor and framebuffer bytes.
    pub closed spec fn screen(&self) -> Screen {
        Screen {
            info: self.info,
            columns: self.columns as nat,
            rows: self.rows as nat,
            column: self.column as nat,
            row: self.row as nat,
            content: surface_bytes(&self.framebuffer),
        }
    }

    /// Wraps `framebuffer`, whose first `byte_len` bytes hold the rows, with the cursor at
    /// the top left; geometry without four bytes per pixel, an empty screen, rows narrower
    /// than the screen or sizes that overflow are invalid, and a buffer shorter than the rows
    /// or a screen smaller than one glyph cell is too small.
    ///
    /// `byte_len` is the caller's word for how many bytes the surface holds: the console
    /// later writes every byte below the frame size it checks against `byte_len`, so a surface
    /// shorter than `byte_len` would be written past its end. The caller must therefore not
    /// claim more than the surface has.
    pub fn from_framebuffer(framebuffer: B, info: FramebufferInfo, byte_len: usize) -> (r: Result<
        Self,
        FramebufferError,
    >)
        requires
            byte_len <= surface_bytes(&framebuffer).len(),
        ensures
            !geometry_ok(info) ==> r == Err::<Self, FramebufferError>(
                FramebufferError::InvalidGeometry,
            ),
            geometry_ok(info) && (frame_bytes(info) > byte_len || info.width < glyph_width()
                || info.height < glyph_height()) ==> r == Err::<Self, FramebufferError>(
                FramebufferError::BufferTooSmall,
            ),
            r is Ok <==> (geometry_ok(info) && frame_bytes(info) <= byte_len && info.width
                >= glyph_width() && info.height >= glyph_height()),
            r matches Ok(console) ==> console.wf() && console.screen() == (Screen {
                info,
                columns: (info.width as int / glyph_width()) as nat,
                rows: (info.height as int / glyph_height()) as nat,
                column: 0,
                row: 0,
                content: surface_bytes(&framebuffer),
            }),
    {
        if info.width == 0 || info.height == 0 || info.stride_pixels < info.width
            || info.bytes_per_pixel != 4 {
            return Err(FramebufferError::InvalidGeometry);
        }
        let stride = info.stride_pixels as usize;
        let row_len = match stride.checked_mul(info.bytes_per_pixel as usize) {
            Some(row_len) => row_len,
            None => return Err(FramebufferError::InvalidGeometry),
        };
        let required = match (info.height as usize).checked_mul(row_len) {
            Some(required) => required,
            None => return Err(FramebufferError::InvalidGeometry),
        };
        let columns = info.width as usize / glyph_cell_width();
        let rows = info.height as usize / glyph_cell_height();
        if required > byte_len || columns == 0 || rows == 0 {
            return Err(FramebufferError::BufferTooSmall);
        }
        Ok(Console { framebuffer, info, columns, rows, column: 0, row: 0 })
    }

    /// Gives the framebuffer back.
    pub fn into_framebuffer(self) -> (r: B)
        ensures
            surface_bytes(&r) == self.screen().content,
    {
        self.framebuffer
    }


    fn get_byte(&self, offset: usize) -> (r: u8)
        requires
            offset < surface_bytes(&self.framebuffer).len(),
        ensures
            r == surface_bytes(&self.framebuffer)[offset as int],
    {
        self.framebuffer.read_byte(offset)
    }

    fn put_byte(&mut self, offset: usize, value: u8)
        requires
            old(self).wf(),
            offset < surface_bytes(&old(self).framebuffer).len(),
        ensures
            final(self).wf(),
            final(self).info == old(self).info,
            final(self).columns == old(self).columns,
            final(self).rows == old(self).rows,
            final(self).column == old(self).column,
            final(self).row == old(self).row,
            surface_bytes(&final(self).framebuffer) == surface_bytes(&old(self).framebuffer).update(
                offset as int,
                value,
            ),
    {
        self.framebuffer.write_byte(offset, value);
        proof {
            assert(surface_bytes(&self.framebuffer) =~= surface_bytes(&old(self).framebuffer).update(
                offset as int,
                value,
            ));
        }
    }

    /// Moves every on-screen row up one glyph cell row and clears the bottom cell row.
    fn scroll(&mut self)
        requires
            old(self).wf(),
        ensures
            final(self).wf(),
            final(self).screen() == (Screen {
                content: scrolled(old(self).screen().content, old(self).info),
                ..old(self).screen()
            }),
    {
        let ghost before = surface_bytes(&self.framebuffer);
        let ghost info = self.info;
        let visible_width = self.info.width as usize * 4;
        let stride = self.info.stride_pixels as usize * 4;
        let height = self.info.height as usize;
        let cell = glyph_cell_height();
        let ghost s4 = stride as int;
        assert(s4 == row_bytes(info));
        assert(height >= 16) by {
            assert(self.rows == self.info.height as int / 16);
        }
        let mut y: usize = cell;
        while y < height
            invariant
                self.wf(),
                self.info == info,
                self.columns == old(self).columns,
                self.rows == old(self).rows,
                self.column == old(self).column,
                self.row == old(self).row,
                before == old(self).screen().content,
                cell == 16,
                s4 == stride,
                s4 == row_bytes(info),
                height == info.height,
                visible_width == 4 * info.width,
                cell <= y <= height,
                surface_bytes(&self.framebuffer) == shifted_upto(before, info, y - cell, 0),
            decreases height - y,
        {
            proof {
                assert(y * s4 + s4 <= height * s4) by (nonlinear_arith)
                    requires
                        y < height,
                        s4 > 0,
                ;
                assert(y * s4 == (y - 16) * s4 + 16 * s4) by (nonlinear_arith);
            }
            let source = y * stride;
            let destination = (y - cell) * stride;
            let mut offset: usize = 0;
            while offset < visible_width
                invariant
                    self.wf(),
                    self.info == info,
                    self.columns == old(self).columns,
                    self.rows == old(self).rows,
                    self.column == old(self).column,
                    self.row == old(self).row,
                    before == old(self).screen().content,
                    cell == 16,
                    s4 == stride,
                    s4 == row_bytes(info),
                    height == info.height,
                    visible_width == 4 * info.width,
                    cell <= y < height,
                    y * s4 + s4 <= height * s4,
                    source == y * s4,
                    destination == (y - cell) * s4,
                    source == destination + 16 * s4,
                    offset <= visible_width,
                    surface_bytes(&self.framebuffer) == shifted_upto(before, info, y - cell, offset as int),
                decreases visible_width - offset,
            {
                proof {
                    lemma_join(s4, y as int, offset as int);
                    lemma_join(s4, (y - cell) as int, offset as int);
                    lemma_visible_byte(info, (source + offset) as int);
                    lemma_visible_byte(info, (destination + offset) as int);
                    lemma_split(s4, (source + offset) as int);
                }
                let value = self.get_byte(source + offset);
                proof {
                    assert(value == before[source + offset]);
                }
                let ghost current = surface_bytes(&self.framebuffer);
                self.put_byte(destination + offset, value);
                proof {
                    let next = shifted_upto(before, info, y - cell, offset + 1);
                    assert forall|o: int| 0 <= o < before.len() implies surface_bytes(&self.framebuffer)[o] == next[o] by {
                        lemma_split(s4, o);
                        lemma_visible_byte(info, o);
                    }
                    assert(surface_bytes(&self.framebuffer) =~= next);
                }
                offset = offset + 1;
            }
            proof {
                let next = shifted_upto(before, info, y + 1 - cell, 0);
                assert forall|o: int| 0 <= o < before.len() implies surface_bytes(&self.framebuffer)[o] == next[o] by {
                    lemma_split(s4, o);
                    lemma_visible_byte(info, o);
                }
                assert(surface_bytes(&self.framebuffer) =~= next);
            }
            y = y + 1;
        }
        let ghost mid = surface_bytes(&self.framebuffer);
        let mut y: usize = height - cell;
        while y < height
            invariant
                self.wf(),
                self.info == info,
                self.columns == old(self).columns,
                self.rows == old(self).rows,
                self.column == old(self).column,
                self.row == old(self).row,
                mid == shifted_upto(before, info, height - cell, 0),
                cell == 16,
                s4 == stride,
                s4 == row_bytes(info),
                height == info.height,
                height >= 16,
                visible_width == 4 * info.width,
                height - cell <= y <= height,
                surface_bytes(&self.framebuffer) == cleared_upto(mid, info, height - cell, y as int, 0),
            decreases height - y,
        {
            proof {
                assert(y * s4 + s4 <= height * s4) by (nonlinear_arith)
                    requires
                        y < height,
                        s4 > 0,
                ;
            }
            let start = y * stride;
            let mut offset: usize = 0;
            while offset < visible_width
                invariant
                    self.wf(),
                    self.info == info,
                    self.columns == old(self).columns,
                    self.rows == old(self).rows,
                    self.column == old(self).column,
                    self.row == old(self).row,
                    cell == 16,
                    s4 == stride,
                    s4 == row_bytes(info),
                    height == info.height,
                    visible_width == 4 * info.width,
                    height - cell <= y < height,
                    y * s4 + s4 <= height * s4,
                    start == y * s4,
                    offset <= visible_width,
                    surface_bytes(&self.framebuffer) == cleared_upto(mid, info, height - cell, y as int, offset as int),
                decreases visible_width - offset,
            {
                proof {
                    lemma_join(s4, y as int, offset as int);
                    lemma_visible_byte(info, (start + offset) as int);
                }
                self.put_byte(start + offset, 0);
                proof {
                    let next = cleared_upto(mid, info, height - cell, y as int, offset + 1);
                    assert forall|o: int| 0 <= o < mid.len() implies surface_bytes(&self.framebuffer)[o] == next[o] by {
                        lemma_split(s4, o);
                        lemma_visible_byte(info, o);
                    }
                    assert(surface_bytes(&self.framebuffer) =~= next);
                }
                offset = offset + 1;
            }
            proof {
                let next = cleared_upto(mid, info, height - cell, y + 1, 0);
                assert forall|o: int| 0 <= o < mid.len() implies surface_bytes(&self.framebuffer)[o] == next[o] by {
                    lemma_split(s4, o);
                    lemma_visible_byte(info, o);
                }
                assert(surface_bytes(&self.framebuffer) =~= next);
            }
            y = y + 1;
        }
        proof {
            let goal = scrolled(before, info);
            assert forall|o: int| 0 <= o < before.len() implies surface_bytes(&self.framebuffer)[o] == goal[o] by {
                if visible(info, o) {
                    lemma_row_bound(info, o);
                }
            }
            assert(surface_bytes(&self.framebuffer) =~= goal);
        }
    }


    /// Draws the glyph of printable character `c` in the cursor's cell.
    fn draw_glyph(&mut self, c: char)
        requires
            old(self).wf(),
            ' ' <= c <= '~',
            old(self).column < old(self).columns,
        ensures
            final(self).wf(),
            final(self).screen() == (Screen {
                content: drawn(
                    old(self).screen().content,
                    old(self).info,
                    old(self).column * glyph_width(),
                    old(self).row * glyph_height(),
                    glyph_of(c),
                ),
                ..old(self).screen()
            }),
    {
        let raster = match glyph_raster(c) {
            Some(raster) => raster,
            None => {
                return;
            },
        };
        let ghost before = surface_bytes(&self.framebuffer);
        let ghost info = self.info;
        let width = glyph_cell_width();
        let height = glyph_cell_height();
        assert(self.column < self.info.width as int / 7);
        assert(self.row < self.info.height as int / 16);
        let x = self.column * width;
        let y = self.row * height;
        let mut gy: usize = 0;
        while gy < height
            invariant
                self.wf(),
                self.info == info,
                self.columns == old(self).columns,
                self.rows == old(self).rows,
                self.column == old(self).column,
                self.row == old(self).row,
                before == old(self).screen().content,
                width == 7,
                height == 16,
                x == self.column * 7,
                y == self.row * 16,
                x + 7 <= info.width,
                y + 16 <= info.height,
                raster.deep_view() == glyph_of(c),
                raster@.len() == 16,
                forall|i: int| 0 <= i < 16 ==> (#[trigger] raster@[i])@.len() == 7,
                gy <= height,
                surface_bytes(&self.framebuffer) == drawn_upto(before, info, x as int, y as int, glyph_of(c), gy * 7),
            decreases height - gy,
        {
            let mut gx: usize = 0;
            while gx < width
                invariant
                    self.wf(),
                    self.info == info,
                    self.columns == old(self).columns,
                    self.rows == old(self).rows,
                    self.column == old(self).column,
                    self.row == old(self).row,
                    before == old(self).screen().content,
                    width == 7,
                    height == 16,
                    x + 7 <= info.width,
                    y + 16 <= info.height,
                    raster.deep_view() == glyph_of(c),
                    raster@.len() == 16,
                    forall|i: int| 0 <= i < 16 ==> (#[trigger] raster@[i])@.len() == 7,
                    gy < height,
                    gx <= width,
                    surface_bytes(&self.framebuffer) == drawn_upto(before, info, x as int, y as int, glyph_of(c), gy * 7 + gx),
                decreases width - gx,
            {
                let intensity = raster[gy][gx];
                proof {
                    assert(raster.deep_view()[gy as int] == raster@[gy as int].deep_view());
                    assert(intensity == glyph_of(c)[gy as int][gx as int]);
                }
                let ghost current = surface_bytes(&self.framebuffer);
                self.write_pixel(x + gx, y + gy, intensity);
                proof {
                    let next = drawn_upto(before, info, x as int, y as int, glyph_of(c), gy * 7 + gx + 1);
                    assert forall|o: int| 0 <= o < before.len() implies surface_bytes(&self.framebuffer)[o] == next[o] by {
                        if 0 <= o < frame_bytes(info) {
                            lemma_row_bound(info, o);
                        }
                    }
                    assert(surface_bytes(&self.framebuffer) =~= next);
                }
                gx = gx + 1;
            }
            gy = gy + 1;
        }
    }

    /// Moves the cursor to the start of the next line, scrolling on the last one.
    fn new_line(&mut self)
        requires
            old(self).wf(),
        ensures
            final(self).wf(),
            final(self).screen() == new_line_screen(old(self).screen()),
    {
        if self.row + 1 == self.rows {
            self.scroll();
            self.column = 0;
        } else {
            self.column = 0;
            self.row = self.row + 1;
        }
    }

    /// Draws printable character `c` at the cursor and advances it, wrapping first when the
    /// line is full.
    fn put_glyph(&mut self, c: char)
        requires
            old(self).wf(),
            ' ' <= c <= '~',
        ensures
            final(self).wf(),
            final(self).screen() == glyph_screen(old(self).screen(), c),
    {
        if self.column == self.columns {
            self.new_line();
        }
        self.draw_glyph(c);
        self.column = self.column + 1;
    }

    /// Writes one byte of text.
    fn write_character(&mut self, byte: u8)
        requires
            old(self).wf(),
        ensures
            final(self).wf(),
            final(self).screen() == byte_screen(old(self).screen(), byte),
    {
        if byte == 10 {
            self.new_line();
        } else if byte == 13 {
            self.column = 0;
        } else if byte == 9 {
            let spaces = TAB_WIDTH - (self.column % TAB_WIDTH);
            let ghost start = self.screen();
            let mut done: usize = 0;
            while done < spaces
                invariant
                    self.wf(),
                    spaces == TAB_WIDTH - start.column % (TAB_WIDTH as nat),
                    done <= spaces,
                    spaces_screen(start, spaces as nat) == spaces_screen(self.screen(), (spaces - done) as nat),
                decreases spaces - done,
            {
                self.put_glyph(' ');
                done = done + 1;
            }
        } else if 0x20 <= byte && byte <= 0x7e {
            self.put_glyph(byte as char);
        } else {
            self.put_glyph('?');
        }
    }

    /// Sets pixel (`x`, `y`) to grey level `intensity`; a pixel off screen is skipped.
    fn write_pixel(&mut self, x: usize, y: usize, intensity: u8)
        requires
            old(self).wf(),
        ensures
            final(self).wf(),
            final(self).screen() == (Screen {
                content: painted(old(self).screen().content, old(self).info, x as int, y as int, intensity),
                ..old(self).screen()
            }),
    {
        let ghost before = surface_bytes(&self.framebuffer);
        let width = self.info.width as usize;
        let height = self.info.height as usize;
        if x >= width || y >= height {
            proof {
                assert(painted(before, self.info, x as int, y as int, intensity) =~= before);
            }
            return;
        }
        let stride = self.info.stride_pixels as usize;
        proof {
            lemma_pixel_in_frame(stride as int, height as int, x as int, y as int);
            assert(y * stride + x == (y * (stride * 4) + x * 4) / 4) by (nonlinear_arith);
            assert((y * stride + x) * 4 == y * (stride * 4) + x * 4) by (nonlinear_arith);
        }
        let offset = (y * stride + x) * 4;
        let info = self.info;
        match info.pixel_format {
            PixelFormat::Bitmask => {
                let pixel = scale_to_mask(intensity, info.red_mask) | scale_to_mask(
                    intensity,
                    info.green_mask,
                ) | scale_to_mask(intensity, info.blue_mask);
                self.put_byte(offset, pixel as u8);
                self.put_byte(offset + 1, (pixel >> 8u32) as u8);
                self.put_byte(offset + 2, (pixel >> 16u32) as u8);
                self.put_byte(offset + 3, (pixel >> 24u32) as u8);
                proof {
                    assert(pixel >> 0u32 == pixel) by (bit_vector);
                }
            },
            _ => {
                self.put_byte(offset, intensity);
                self.put_byte(offset + 1, intensity);
                self.put_byte(offset + 2, intensity);
                self.put_byte(offset + 3, 0);
            },
        }
        proof {
            let after = surface_bytes(&self.framebuffer);
            assert forall|o: int| 0 <= o < before.len() implies after[o] == painted(before, info, x as int, y as int, intensity)[o] by {
                lemma_pixel_bytes(stride as int, x as int, y as int, o);
            }
            assert(after =~= painted(before, info, x as int, y as int, intensity));
        }
    }
}

impl<'a> Console<SliceFramebuffer<'a>> {
    /// A console on a framebuffer held in ordinary memory; see `from_framebuffer`.
    pub fn new(bytes: &'a mut [u8], info: FramebufferInfo) -> (r: Result<Self, FramebufferError>)
        ensures
            !geometry_ok(info) ==> r == Err::<Self, FramebufferError>(
                FramebufferError::InvalidGeometry,
            ),
            geometry_ok(info) && (frame_bytes(info) > old(bytes)@.len() || info.width
                < glyph_width() || info.height < glyph_height()) ==> r == Err::<
                Self,
                FramebufferError,
            >(FramebufferError::BufferTooSmall),
            r is Ok <==> (geometry_ok(info) && frame_bytes(info) <= old(bytes)@.len()
                && info.width >= glyph_width() && info.height >= glyph_height()),
            r matches Ok(console) ==> console.wf() && console.screen() == (Screen {
                info,
                columns: (info.width as int / glyph_width()) as nat,
                rows: (info.height as int / glyph_height()) as nat,
                column: 0,
                row: 0,
                content: old(bytes)@,
            }),
    {
        let byte_len = bytes.len();
        Self::from_framebuffer(SliceFramebuffer::new(bytes), info, byte_len)
    }
}

impl<B: Framebuffer> crate::console::TextOutput for Console<B> {
    open spec fn ready(&self) -> bool {
        self.wf()
    }

    open spec fn wrote(&self, before: Self, bytes: &[u8]) -> bool {
        self.screen() == text_screen(before.screen(), bytes@)
    }

    /// Writes `bytes` one after another.
    fn write_bytes(&mut self, bytes: &[u8]) {
        let ghost start = self.screen();
        let mut index: usize = 0;
        while index < bytes.len()
            invariant
                self.wf(),
                index <= bytes@.len(),
                self.screen() == text_screen(start, bytes@.subrange(0, index as int)),
            decreases bytes@.len() - index,
        {
            let byte = bytes[index];
            self.write_character(byte);
            proof {
                let prefix = bytes@.subrange(0, index + 1);
                assert(prefix.drop_last() =~= bytes@.subrange(0, index as int));
                assert(prefix.last() == byte);
            }
            index = index + 1;
        }
        proof {
            assert(bytes@.subrange(0, bytes@.len() as int) =~= bytes@);
        }
    }
}

} // verus!
