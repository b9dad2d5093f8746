//! The loaded font: validation at load time, codepoint resolution and glyph rasterization.

use vstd::prelude::*;

use crate::header::{field_at, parsed_from, stride_of, unicode_bit, Header, LoadError, MAGIC};
use crate::table::{
    build_table, lemma_map_of_value, map_contents, map_get, table_map, table_pairs, UnicodeMap,
    TABLE_CAPACITY,
};

verus! {

/// Glyph index of `'?'`, shown for a codepoint that the font cannot map.
pub const FALLBACK_GLYPH: usize = 63;

/// Whether `c` is a Unicode scalar value (at most U+10FFFF, not a surrogate).
pub open spec fn valid_scalar(c: u32) -> bool {
    c <= 0x10ffff && !(0xd800 <= c <= 0xdfff)
}

/// The UTF-8 encoding of `c`, zero-padded to four bytes.
pub open spec fn utf8_key(c: u32) -> Seq<u8> {
    if c < 0x80 {
        seq![c as u8, 0u8, 0u8, 0u8]
    } else if c < 0x800 {
        seq![(0xc0 + c / 64) as u8, (0x80 + c % 64) as u8, 0u8, 0u8]
    } else if c < 0x10000 {
        seq![(0xe0 + c / 4096) as u8, (0x80 + (c / 64) % 64) as u8, (0x80 + c % 64) as u8, 0u8]
    } else {
        seq![
            (0xf0 + c / 262144) as u8,
            (0x80 + (c / 4096) % 64) as u8,
            (0x80 + (c / 64) % 64) as u8,
            (0x80 + c % 64) as u8,
        ]
    }
}

/// Bit `k` of `byte`, counting from the most significant bit.
pub open spec fn bit_of(byte: u8, k: int) -> u8 {
    (byte >> ((7 - k) as u8)) & 1u8
}

/// Offset one past the glyph bitmaps, as the raw header states it.
pub open spec fn raw_bitmap_end(raw: Seq<u8>) -> int {
    field_at(raw, 8) + field_at(raw, 16) * field_at(raw, 20)
}

/// Whether the raw header announces a Unicode table.
pub open spec fn raw_unicode(raw: Seq<u8>) -> bool {
    unicode_bit(raw.subrange(12, 16))
}

/// The Unicode table bytes of a buffer: everything after the glyph bitmaps.
pub open spec fn raw_table(raw: Seq<u8>) -> Seq<u8> {
    raw.subrange(raw_bitmap_end(raw), raw.len() as int)
}

/// Why `raw` is not a loadable font, or `None` when it is.
pub open spec fn load_error(raw: Seq<u8>) -> Option<LoadError> {
    if raw.len() < 32 || raw.subrange(0, 4) != MAGIC@ {
        Some(LoadError::Malformed)
    } else if field_at(raw, 28) > 256 || field_at(raw, 24) > 256 || field_at(raw, 20)
        != field_at(raw, 24) * stride_of(field_at(raw, 28)) {
        Some(LoadError::BadGeometry)
    } else if raw_bitmap_end(raw) > raw.len() || (raw_unicode(raw) && raw_bitmap_end(raw)
        == raw.len()) {
        Some(LoadError::Truncated)
    } else if raw_unicode(raw) && table_map(raw_table(raw)).len() > TABLE_CAPACITY {
        Some(LoadError::TableFull)
    } else {
        None
    }
}

/// A loaded PSF2 font. It owns a copy of the glyph bitmaps and, when the font has a
/// Unicode table, the lookup map built from it.
#[derive(Debug)]
pub struct Font {
    /// The font header.
    pub header: Header,
    /// The glyph bitmaps, without the header.
    data: Vec<u8>,
    /// The parsed Unicode table.
    unicode: Option<UnicodeMap>,
}

impl Font {
    /// The header, as the contracts see it (equal to the `header` field).
    pub closed spec fn head(&self) -> Header {
        self.header
    }

    /// The glyph bitmaps, glyph after glyph.
    pub closed spec fn bitmap(&self) -> Seq<u8> {
        self.data@
    }

    /// The Unicode lookup map, if the font has one.
    pub closed spec fn table(&self) -> Option<Map<Seq<u8>, usize>> {
        match self.unicode {
            Some(m) => Some(map_contents(m)),
            None => None,
        }
    }

    /// The font's internal consistency.
    pub open spec fn wf(&self) -> bool {
        &&& self.head().geometry_ok()
        &&& self.bitmap().len() == self.head().length as int * self.head().glyph_size as int
        &&& (self.table() is Some <==> self.head().flags.unicode)
    }

    /// The glyph index stored for `c`, if any.
    pub open spec fn glyph_index_spec(&self, c: u32) -> Option<usize> {
        if c < 128 {
            Some(c as usize)
        } else {
            match self.table() {
                None => None,
                Some(t) => if valid_scalar(c) && t.contains_key(utf8_key(c)) {
                    Some(t[utf8_key(c)])
                } else {
                    None
                },
            }
        }
    }

    /// The glyph index shown for `c`: the stored one, else that of `'?'`.
    pub open spec fn resolve_spec(&self, c: u32) -> usize {
        match self.glyph_index_spec(c) {
            Some(i) => i,
            None => FALLBACK_GLYPH,
        }
    }

    /// The pixels of glyph `index` as (bit, x, y), row by row, left to right.
    pub open spec fn pixels(&self, index: int) -> Seq<(u8, u8, u8)> {
        let w = self.head().glyph_width as int;
        let h = self.head().glyph_height as int;
        let base = index * self.head().glyph_size as int;
        Seq::new(
            (h * w) as nat,
            |k: int|
                {
                    let y = k / w;
                    let x = k % w;
                    let byte = self.bitmap()[base + y * stride_of(w) + x / 8];
                    (bit_of(byte, x % 8), x as u8, y as u8)
                },
        )
    }
}

fn copy_range(raw: &[u8], from: usize, to: usize) -> (r: Vec<u8>)
    requires
        from <= to <= raw@.len(),
    ensures
        r@ == raw@.subrange(from as int, to as int),
{
    let mut r: Vec<u8> = Vec::new();
    let mut i: usize = from;
    while i < to
        invariant
            from <= i <= to <= raw@.len(),
            r@ == raw@.subrange(from as int, i as int),
        decreases to - i,
    {
        r.push(raw[i]);
        i = i + 1;
        assert(r@ =~= raw@.subrange(from as int, i as int));
    }
    r
}

impl Font {
    /// Loads a font from the raw bytes of a PSF2 file.
    ///
    /// Fails when the buffer is shorter than a header or has the wrong magic, when the
    /// glyph size disagrees with the glyph dimensions (or these exceed 256), when the
    /// bitmaps or an announced Unicode table do not fit, or when the table holds more
    /// distinct sequences than the lookup map can store.
    pub fn load(raw: &[u8]) -> (r: Result<Font, LoadError>)
        ensures
            r is Ok <==> load_error(raw@) is None,
            r matches Err(e) ==> load_error(raw@) == Some(e),
            r matches Ok(f) ==> {
                &&& f.wf()
                &&& parsed_from(f.head(), raw@)
                &&& f.bitmap() == raw@.subrange(f.head().size as int, raw_bitmap_end(raw@))
                &&& f.table() == if raw_unicode(raw@) {
                    Some(table_map(raw_table(raw@)))
                } else {
                    None::<Map<Seq<u8>, usize>>
                }
            },
    {
        let h = match Header::parse(raw) {
            Ok(h) => h,
            Err(e) => return Err(e),
        };
        if !(h.magic[0] == MAGIC[0] && h.magic[1] == MAGIC[1] && h.magic[2] == MAGIC[2]
            && h.magic[3] == MAGIC[3]) {
            proof {
                assert(raw@.subrange(0, 4) != MAGIC@) by {
                    if raw@.subrange(0, 4) == MAGIC@ {
                        assert(h.magic@[0] == MAGIC@[0]);
                        assert(h.magic@[1] == MAGIC@[1]);
                        assert(h.magic@[2] == MAGIC@[2]);
                        assert(h.magic@[3] == MAGIC@[3]);
                    }
                }
            }
            return Err(LoadError::Malformed);
        }
        assert(raw@.subrange(0, 4) =~= MAGIC@);
        if h.glyph_width > 256 || h.glyph_height > 256 {
            return Err(LoadError::BadGeometry);
        }
        let stride: u32 = (h.glyph_width + 7) / 8;
        assert(stride <= 32);
        assert(h.glyph_height * stride <= 256 * 32) by (nonlinear_arith)
            requires
                h.glyph_height <= 256,
                stride <= 32,
        ;
        if h.glyph_size != h.glyph_height * stride {
            return Err(LoadError::BadGeometry);
        }
        let gs = h.glyph_size;
        assert(gs <= 256 * 32);
        assert(h.length as int * gs as int <= 0xffff_ffff * 8192) by (nonlinear_arith)
            requires
                gs <= 8192,
        ;
        let end: u64 = h.size as u64 + h.length as u64 * gs as u64;
        let len: u64 = raw.len() as u64;
        if end > len || (h.flags.unicode && end == len) {
            return Err(LoadError::Truncated);
        }
        let end: usize = end as usize;
        let data = copy_range(raw, h.size as usize, end);
        let unicode = if h.flags.unicode {
            match build_table(vstd::slice::slice_subrange(raw, end, raw.len())) {
                Ok(m) => Some(m),
                Err(e) => return Err(e),
            }
        } else {
            None
        };
        Ok(Font { header: h, data, unicode })
    }

    /// The font header.
    pub fn header(&self) -> (r: Header)
        ensures
            r == self.head(),
    {
        self.header
    }

    /// The glyph index the font stores for codepoint `c`.
    ///
    /// A codepoint below 128 is its own index. Any other is looked up, by its UTF-8
    /// encoding, in the Unicode table; without a table, or when `c` is not a Unicode
    /// scalar value or has no entry, there is none.
    pub fn glyph_index(&self, c: u32) -> (r: Option<usize>)
        requires
            self.wf(),
        ensures
            r == self.glyph_index_spec(c),
    {
        if c < 128 {
            return Some(c as usize);
        }
        match &self.unicode {
            None => None,
            Some(m) => {
                if c > 0x10ffff || (0xd800 <= c && c <= 0xdfff) {
                    return None;
                }
                let key = encode_key(c);
                map_get(m, &key)
            },
        }
    }

    /// The glyph index shown for codepoint `c`: the stored one, else that of `'?'`.
    pub fn resolve(&self, c: u32) -> (r: usize)
        requires
            self.wf(),
        ensures
            r == self.resolve_spec(c),
    {
        match self.glyph_index(c) {
            Some(i) => i,
            None => FALLBACK_GLYPH,
        }
    }

    /// The pixels of glyph `index` as (bit, x, y): `glyph_height` rows of `glyph_width`
    /// pixels, top to bottom and left to right. Padding bits at the end of a row are
    /// never reported.
    pub fn glyph_pixels(&self, index: usize) -> (r: Vec<(u8, u8, u8)>)
        requires
            self.wf(),
            index < self.head().length,
        ensures
            r@ == self.pixels(index as int),
    {
        let w = self.header.glyph_width;
        let h = self.header.glyph_height;
        let gs = self.header.glyph_size as usize;
        let stride: usize = ((w + 7) / 8) as usize;
        let ghost len = self.head().length as int;
        let dlen = self.data.len();
        proof {
            assert(index * gs + gs <= len * gs) by (nonlinear_arith)
                requires
                    index < len,
            ;
        }
        let base: usize = index * gs;
        let ghost px = self.pixels(index as int);
        let mut out: Vec<(u8, u8, u8)> = Vec::new();
        let mut y: u32 = 0;
        while y < h
            invariant
                self.wf(),
                w == self.head().glyph_width,
                h == self.head().glyph_height,
                gs == self.head().glyph_size,
                stride == stride_of(w as int),
                base == index * gs,
                base + gs <= self.bitmap().len(),
                self.bitmap().len() == dlen,
                px == self.pixels(index as int),
                y <= h,
                out@ == px.take(y * w),
            decreases h - y,
        {
            let mut x: u32 = 0;
            while x < w
                invariant
                    self.wf(),
                    w == self.head().glyph_width,
                    h == self.head().glyph_height,
                    gs == self.head().glyph_size,
                    stride == stride_of(w as int),
                    base == index * gs,
                    base + gs <= self.bitmap().len(),
                self.bitmap().len() == dlen,
                    px == self.pixels(index as int),
                    y < h,
                    x <= w,
                    out@ == px.take(y * w + x),
                decreases w - x,
            {
                proof {
                    lemma_row_offset(y as int, x as int, w as int, h as int, stride as int);
                    assert(y * stride + x / 8 < gs);
                }
                let byte = self.data[base + y as usize * stride + (x / 8) as usize];
                let bit = (byte >> ((7 - x % 8) as u8)) & 1u8;
                out.push((bit, x as u8, y as u8));
                proof {
                    let k = y * w + x;
                    lemma_pixel_pos(y as int, x as int, w as int);
                    assert(out@ =~= px.take(k + 1));
                }
                x = x + 1;
            }
            proof {
                assert(y * w + w == (y + 1) * w) by (nonlinear_arith);
            }
            y = y + 1;
        }
        proof {
            assert(px.len() == h * w);
            assert(out@ =~= px);
        }
        out
    }
}

impl Font {
    /// Displays the glyph for codepoint `c` by calling `action(bit, x, y)` once for each
    /// pixel of `glyph_pixels(self.resolve(c))`, in that order. Nothing is called when
    /// the resolved index is not below the glyph count.
    pub fn display_glyph<F: FnMut(u8, u8, u8)>(&self, c: u32, mut action: F)
        requires
            self.wf(),
            forall|f: F, b: u8, x: u8, y: u8| #[trigger] call_requires(f, (b, x, y)),
    {
        let index = self.resolve(c);
        if index >= self.header.length as usize {
            return;
        }
        let px = self.glyph_pixels(index);
        let mut i: usize = 0;
        while i < px.len()
            invariant
                forall|f: F, b: u8, x: u8, y: u8| #[trigger] call_requires(f, (b, x, y)),
            decreases px.len() - i,
        {
            let (bit, x, y) = px[i];
            action(bit, x, y);
            i = i + 1;
        }
    }
}

/// In a font without a Unicode table, every codepoint below 128 resolves to itself.
pub proof fn lemma_ascii_is_direct(f: &Font, c: u32)
    requires
        f.wf(),
        !f.head().flags.unicode,
        c < 128,
    ensures
        f.resolve_spec(c) == c as usize,
{
}

/// In a font with a Unicode table, a codepoint of 128 or more that has no entry resolves
/// to the same glyph as `'?'`.
pub proof fn lemma_unmapped_is_fallback(f: &Font, c: u32)
    requires
        f.wf(),
        f.head().flags.unicode,
        c >= 128,
        !(valid_scalar(c) && f.table().unwrap().contains_key(utf8_key(c))),
    ensures
        f.resolve_spec(c) == f.resolve_spec('?' as u32),
        f.resolve_spec(c) == FALLBACK_GLYPH,
{
}

/// Two codepoints whose encodings are both listed in the table entry of glyph `i`, and in
/// no other entry, resolve to that same glyph.
pub proof fn lemma_aliases_share_glyph(f: &Font, t: Seq<u8>, c1: u32, c2: u32, i: usize)
    requires
        f.wf(),
        f.table() == Some(table_map(t)),
        c1 >= 128,
        c2 >= 128,
        valid_scalar(c1),
        valid_scalar(c2),
        exists|j: int| 0 <= j < table_pairs(t).len() && table_pairs(t)[j] == (utf8_key(c1), i),
        exists|j: int| 0 <= j < table_pairs(t).len() && table_pairs(t)[j] == (utf8_key(c2), i),
        forall|j: int|
            0 <= j < table_pairs(t).len() && (table_pairs(t)[j].0 == utf8_key(c1)
                || table_pairs(t)[j].0 == utf8_key(c2)) ==> table_pairs(t)[j].1 == i,
    ensures
        f.resolve_spec(c1) == i,
        f.resolve_spec(c2) == i,
{
    lemma_map_of_value(table_pairs(t), utf8_key(c1), i);
    lemma_map_of_value(table_pairs(t), utf8_key(c2), i);
}

/// A glyph is `glyph_height * glyph_width` pixels in row-major order: pixel `k` sits at
/// x = k % width and y = k / width, inside the glyph, and its bit is 0 or 1.
pub proof fn lemma_pixels_shape(f: &Font, index: int)
    requires
        f.wf(),
        0 <= index < f.head().length,
    ensures
        f.pixels(index).len() == f.head().glyph_height as int * f.head().glyph_width as int,
        forall|k: int|
            0 <= k < f.pixels(index).len() ==> {
                let p = #[trigger] f.pixels(index)[k];
                &&& p.0 <= 1
                &&& p.1 as int == k % f.head().glyph_width as int
                &&& p.2 as int == k / f.head().glyph_width as int
                &&& p.1 < f.head().glyph_width
                &&& p.2 < f.head().glyph_height
            },
{
    let w = f.head().glyph_width as int;
    let h = f.head().glyph_height as int;
    assert forall|k: int| 0 <= k < f.pixels(index).len() implies {
        let p = #[trigger] f.pixels(index)[k];
        &&& p.0 <= 1
        &&& p.1 as int == k % w
        &&& p.2 as int == k / w
        &&& p.1 < w
        &&& p.2 < h
    } by {
        assert(0 <= k < h * w);
        assert(w > 0) by (nonlinear_arith)
            requires
                0 <= k < h * w,
                h >= 0,
        ;
        assert(k / w < h) by (nonlinear_arith)
            requires
                0 <= k < h * w,
                w > 0,
        ;
        assert(0 <= k % w < w) by (nonlinear_arith)
            requires
                w > 0,
        ;
        assert(k / w >= 0) by (nonlinear_arith)
            requires
                k >= 0,
                w > 0,
        ;
        let x = k % w;
        let base = index * f.head().glyph_size as int;
        let byte = f.bitmap()[base + (k / w) * stride_of(w) + x / 8];
        let s = (7 - x % 8) as u8;
        assert((byte >> s) & 1u8 <= 1u8) by (bit_vector);
    }
}

/// Rasterizing one glyph twice gives the same pixels: the result depends on the font
/// and the index alone.
pub proof fn lemma_pixels_repeatable(
    f: &Font,
    index: int,
    first: Seq<(u8, u8, u8)>,
    second: Seq<(u8, u8, u8)>,
)
    requires
        f.wf(),
        0 <= index < f.head().length,
        first == f.pixels(index),
        second == f.pixels(index),
    ensures
        first == second,
        first.len() == f.head().glyph_height as int * f.head().glyph_width as int,
{
}

proof fn lemma_pixel_pos(y: int, x: int, w: int)
    requires
        0 <= x < w,
        0 <= y,
    ensures
        (y * w + x) / w == y,
        (y * w + x) % w == x,
{
    vstd::arithmetic::div_mod::lemma_fundamental_div_mod_converse(y * w + x, w, y, x);
}

proof fn lemma_row_offset(y: int, x: int, w: int, h: int, stride: int)
    requires
        0 <= y < h,
        0 <= x < w,
        stride == stride_of(w),
    ensures
        0 <= y * stride + x / 8 < h * stride,
        y * w + x < h * w,
{
    assert(x / 8 < stride);
    assert(0 <= y * stride + x / 8 < h * stride) by (nonlinear_arith)
        requires
            0 <= y < h,
            0 <= x / 8 < stride,
    ;
    assert(y * w + x < h * w) by (nonlinear_arith)
        requires
            0 <= y < h,
            0 <= x < w,
    ;
}

fn encode_key(c: u32) -> (k: [u8; 4])
    requires
        valid_scalar(c),
    ensures
        k@ == utf8_key(c),
{
    let k: [u8; 4] = if c < 0x80 {
        [c as u8, 0, 0, 0]
    } else if c < 0x800 {
        [(0xc0 + c / 64) as u8, (0x80 + c % 64) as u8, 0, 0]
    } else if c < 0x10000 {
        [(0xe0 + c / 4096) as u8, (0x80 + (c / 64) % 64) as u8, (0x80 + c % 64) as u8, 0]
    } else {
        [
            (0xf0 + c / 262144) as u8,
            (0x80 + (c / 4096) % 64) as u8,
            (0x80 + (c / 64) % 64) as u8,
            (0x80 + c % 64) as u8,
        ]
    };
    assert(k@ =~= utf8_key(c));
    k
}

} // verus!
