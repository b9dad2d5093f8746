//! Little-endian field decoding and the fixed 32-byte PSF2 header.

use vstd::prelude::*;

verus! {

/// Magic bytes that identify a PSF2 font.
pub const MAGIC: [u8; 4] = [0x72, 0xb5, 0x4a, 0x86];

/// Size of the fixed PSF2 header in bytes.
pub const HEADER_LEN: usize = 32;

/// Why a buffer could not be loaded as a font.
#[derive(Clone, Copy, Debug, PartialEq, Eq, Structural)]
pub enum LoadError {
    /// Shorter than a header, or the magic does not match.
    Malformed,
    /// The glyph bitmaps, or the Unicode table the flags announce, do not fit in the buffer.
    Truncated,
    /// The glyph dimensions disagree with the glyph byte size, or exceed 256 pixels.
    BadGeometry,
    /// The Unicode table holds more distinct sequences than the lookup map can store.
    TableFull,
}

/// The little-endian value of four bytes.
pub open spec fn le_u32(b0: u8, b1: u8, b2: u8, b3: u8) -> int {
    b0 as int + 256 * (b1 as int) + 65536 * (b2 as int) + 16777216 * (b3 as int)
}

/// The little-endian `u32` that starts at offset `off` of `raw`.
pub open spec fn field_at(raw: Seq<u8>, off: int) -> int {
    le_u32(raw[off], raw[off + 1], raw[off + 2], raw[off + 3])
}

/// Converts the first four bytes of `array` into one little-endian `u32`.
pub fn as_u32_le(array: &[u8]) -> (r: Option<u32>)
    ensures
        array@.len() < 4 <==> r.is_none(),
        r matches Some(v) ==> v as int == field_at(array@, 0),
{
    if array.len() < 4 {
        return None;
    }
    let v = (array[0] as u32) + (array[1] as u32) * 256 + (array[2] as u32) * 65536 + (
    array[3] as u32) * 16777216;
    Some(v)
}

/// Font flags.
///
/// There is one flag: whether a Unicode table follows the glyph bitmaps.
#[derive(Clone, Copy, Debug)]
pub struct Flags {
    /// Whether a Unicode table is present.
    pub unicode: bool,
}

/// Bit 0 of the little-endian flags field, which lives in its first byte.
pub open spec fn unicode_bit(raw: Seq<u8>) -> bool {
    raw.len() > 0 && raw[0] % 2 == 1
}

impl Flags {
    /// Parses the flags from their four-byte field.
    pub fn parse(raw: &[u8]) -> (r: Self)
        ensures
            r.unicode == unicode_bit(raw@),
    {
        if raw.len() == 0 {
            return Flags { unicode: false };
        }
        Flags { unicode: raw[0] % 2 == 1 }
    }
}

/// The font header.
#[derive(Clone, Copy, Debug)]
pub struct Header {
    /// Magic that is the same in all PSF2 files.
    pub magic: [u8; 4],
    /// The format version; currently always 0.
    pub version: u32,
    /// Offset of the glyph bitmaps, which is the header's size (usually 32).
    pub size: u32,
    /// Flags of the font.
    pub flags: Flags,
    /// The number of glyphs.
    pub length: u32,
    /// The size in bytes of each glyph's bitmap.
    pub glyph_size: u32,
    /// The height of each glyph in rows.
    pub glyph_height: u32,
    /// The width of each glyph in pixels.
    pub glyph_width: u32,
}

/// Bytes per bitmap row for a glyph `width` pixels wide.
pub open spec fn stride_of(width: int) -> int {
    (width + 7) / 8
}

/// `h` holds the header fields stored in the first 32 bytes of `raw`.
pub open spec fn parsed_from(h: Header, raw: Seq<u8>) -> bool {
    &&& raw.len() >= 32
    &&& h.magic@ == raw.subrange(0, 4)
    &&& h.version as int == field_at(raw, 4)
    &&& h.size as int == field_at(raw, 8)
    &&& h.flags.unicode == unicode_bit(raw.subrange(12, 16))
    &&& h.length as int == field_at(raw, 16)
    &&& h.glyph_size as int == field_at(raw, 20)
    &&& h.glyph_height as int == field_at(raw, 24)
    &&& h.glyph_width as int == field_at(raw, 28)
}

impl Header {
    /// Whether the glyph dimensions fit in `u8` coordinates and agree with the
    /// glyph byte size.
    pub open spec fn geometry_ok(self) -> bool {
        &&& self.glyph_width <= 256
        &&& self.glyph_height <= 256
        &&& self.glyph_size as int == self.glyph_height as int * stride_of(
            self.glyph_width as int,
        )
    }

    /// Reads the header fields from the first 32 bytes of `raw`, without validating them.
    pub fn parse(raw: &[u8]) -> (r: Result<Header, LoadError>)
        ensures
            raw@.len() < 32 <==> r is Err,
            r is Err ==> r == Err::<Header, LoadError>(LoadError::Malformed),
            r matches Ok(h) ==> parsed_from(h, raw@),
    {
        if raw.len() < HEADER_LEN {
            return Err(LoadError::Malformed);
        }
        let magic: [u8; 4] = [raw[0], raw[1], raw[2], raw[3]];
        let h = Header {
            magic,
            version: field(raw, 4),
            size: field(raw, 8),
            flags: Flags::parse(slice_of(raw, 12, 16)),
            length: field(raw, 16),
            glyph_size: field(raw, 20),
            glyph_height: field(raw, 24),
            glyph_width: field(raw, 28),
        };
        assert(h.magic@ =~= raw@.subrange(0, 4));
        Ok(h)
    }
}

fn slice_of(raw: &[u8], from: usize, to: usize) -> (r: &[u8])
    requires
        from <= to <= raw@.len(),
    ensures
        r@ == raw@.subrange(from as int, to as int),
{
    vstd::slice::slice_subrange(raw, from, to)
}

fn field(raw: &[u8], off: usize) -> (r: u32)
    requires
        off <= 28,
        raw@.len() >= 32,
    ensures
        r as int == field_at(raw@, off as int),
{
    let s = slice_of(raw, off, off + 4);
    match as_u32_le(s) {
        Some(v) => v,
        None => 0,
    }
}

} // verus!
