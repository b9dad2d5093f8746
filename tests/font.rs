use psf_rs::{as_u32_le, Flags, Font, Header, LoadError, FALLBACK_GLYPH, TABLE_CAPACITY};

fn put_u32(out: &mut Vec<u8>, v: u32) {
    out.extend_from_slice(&v.to_le_bytes());
}

/// A PSF2 header followed by `glyphs` and, when given, a Unicode table.
fn font_bytes(width: u32, height: u32, count: u32, glyphs: &[u8], table: Option<&[u8]>) -> Vec<u8> {
    let stride = (width + 7) / 8;
    let mut out = vec![0x72, 0xb5, 0x4a, 0x86];
    put_u32(&mut out, 0);
    put_u32(&mut out, 32);
    put_u32(&mut out, if table.is_some() { 1 } else { 0 });
    put_u32(&mut out, count);
    put_u32(&mut out, height * stride);
    put_u32(&mut out, height);
    put_u32(&mut out, width);
    out.extend_from_slice(glyphs);
    if let Some(t) = table {
        out.extend_from_slice(t);
    }
    out
}

/// A 256-glyph 8x16 font whose table lists ASCII directly and a few aliases.
fn cp437_like() -> Vec<u8> {
    let mut glyphs = vec![0u8; 256 * 16];
    // glyph 'A', row 2
    glyphs[0x41 * 16 + 2] = 0b0110_0110;
    let mut extra: Vec<Vec<char>> = vec![Vec::new(); 256];
    extra[0xe6] = vec!['\u{b5}', '\u{3bc}'];
    extra[0x14] = vec!['¶'];
    extra[0xfd] = vec!['²'];
    extra[0xe4] = vec!['Σ'];
    extra[0xbc] = vec!['╝'];
    extra[0xea] = vec!['\u{3a9}', '\u{2126}'];
    let mut table = Vec::new();
    for (i, aliases) in extra.iter().enumerate() {
        if i < 128 {
            table.push(i as u8);
        }
        for c in aliases {
            let mut buf = [0u8; 4];
            table.extend_from_slice(c.encode_utf8(&mut buf).as_bytes());
        }
        table.push(0xff);
    }
    font_bytes(8, 16, 256, &glyphs, Some(&table))
}

#[test]
fn glyph_index() {
    let raw = cp437_like();
    let font = Font::load(&raw).unwrap();

    assert_eq!(font.glyph_index('A' as u32), Some(0x41));
    assert_eq!(font.glyph_index('~' as u32), Some(0x7e));
    assert_eq!(font.glyph_index('µ' as u32), Some(0xe6));
    assert_eq!(font.glyph_index('¶' as u32), Some(0x14));
    assert_eq!(font.glyph_index('²' as u32), Some(0xfd));
    assert_eq!(font.glyph_index('Σ' as u32), Some(0xe4));
    assert_eq!(font.glyph_index('╝' as u32), Some(0xbc));
    assert_eq!(font.glyph_index('µ' as u32), Some(0xe6));
    assert_eq!(font.glyph_index('\u{3bc}' as u32), Some(0xe6));

    const OMEGA_1: char = '\u{3a9}';
    const OMEGA_2: char = '\u{2126}';

    assert_eq!(font.glyph_index(OMEGA_1 as u32), Some(0xea));
    assert_eq!(font.glyph_index(OMEGA_2 as u32), Some(0xea));

    assert_ne!(OMEGA_1, OMEGA_2);
}

#[test]
fn aliases_resolve_to_one_glyph() {
    let raw = cp437_like();
    let font = Font::load(&raw).unwrap();
    assert_eq!(font.resolve(0x00b5), 0xe6);
    assert_eq!(font.resolve(0x03bc), 0xe6);
}

#[test]
fn display_row_of_a() {
    let raw = cp437_like();
    let font = Font::load(&raw).unwrap();
    let mut seen: Vec<(u8, u8, u8)> = Vec::new();
    font.display_glyph('A' as u32, |bit, x, y| seen.push((bit, x, y)));
    assert_eq!(seen.len(), 16 * 8);
    let row: Vec<(u8, u8, u8)> = seen.iter().copied().filter(|p| p.2 == 2).collect();
    assert_eq!(
        row,
        vec![
            (0, 0, 2),
            (1, 1, 2),
            (1, 2, 2),
            (0, 3, 2),
            (0, 4, 2),
            (1, 5, 2),
            (1, 6, 2),
            (0, 7, 2)
        ]
    );
    assert!(seen.iter().filter(|p| p.2 != 2).all(|p| p.0 == 0));
}

#[test]
fn corrupted_magic_is_rejected() {
    let mut raw = cp437_like();
    raw[0] = 0;
    raw[1] = 0;
    raw[2] = 0;
    raw[3] = 0;
    assert_eq!(Font::load(&raw).err(), Some(LoadError::Malformed));
}

#[test]
fn short_buffer_is_rejected() {
    let raw = cp437_like();
    assert_eq!(Font::load(&raw[..31]).err(), Some(LoadError::Malformed));
    assert_eq!(Font::load(&[]).err(), Some(LoadError::Malformed));
}

#[test]
fn truncated_bitmaps_are_rejected() {
    let raw = font_bytes(8, 16, 4, &[0u8; 63], None);
    assert_eq!(Font::load(&raw).err(), Some(LoadError::Truncated));
    let raw = font_bytes(8, 16, 4, &[0u8; 64], None);
    assert!(Font::load(&raw).is_ok());
}

#[test]
fn announced_table_must_be_present() {
    let raw = font_bytes(8, 16, 4, &[0u8; 64], Some(&[]));
    assert_eq!(Font::load(&raw).err(), Some(LoadError::Truncated));
}

#[test]
fn geometry_must_agree() {
    let mut raw = font_bytes(8, 16, 4, &[0u8; 64], None);
    // glyph_size 17 for 16 rows of one byte
    raw[20] = 17;
    assert_eq!(Font::load(&raw).err(), Some(LoadError::BadGeometry));
    let raw = font_bytes(257, 1, 1, &[0u8; 33], None);
    assert_eq!(Font::load(&raw).err(), Some(LoadError::BadGeometry));
}

#[test]
fn table_over_capacity_is_rejected() {
    let mut table = Vec::new();
    let mut n = 0;
    'outer: for b1 in 0x80u8..0xc0 {
        for b2 in 0x80u8..0xc0 {
            table.extend_from_slice(&[0xe2, b1, b2]);
            n += 1;
            if n == TABLE_CAPACITY + 1 {
                break 'outer;
            }
        }
    }
    table.push(0xff);
    let raw = font_bytes(8, 1, 1, &[0u8], Some(&table));
    assert_eq!(Font::load(&raw).err(), Some(LoadError::TableFull));
    let keep = table.len() - 4;
    table.truncate(keep);
    table.push(0xff);
    let raw = font_bytes(8, 1, 1, &[0u8], Some(&table));
    assert!(Font::load(&raw).is_ok());
}

#[test]
fn ascii_is_direct_without_table() {
    let raw = font_bytes(8, 1, 256, &[0u8; 256], None);
    let font = Font::load(&raw).unwrap();
    for c in 0..128u32 {
        assert_eq!(font.resolve(c), c as usize);
    }
    assert_eq!(font.glyph_index(200), None);
    assert_eq!(font.resolve(200), FALLBACK_GLYPH);
}

#[test]
fn unmapped_codepoint_falls_back() {
    let raw = cp437_like();
    let font = Font::load(&raw).unwrap();
    assert_eq!(font.glyph_index(0x4e2d), None);
    assert_eq!(font.resolve(0x4e2d), font.resolve('?' as u32));
    assert_eq!(font.resolve(0x1f600), 63);
    assert_eq!(font.resolve(0xd800), 63);
    assert_eq!(font.resolve(0x110000), 63);
}

#[test]
fn narrow_glyph_stops_at_width() {
    // 5 pixels wide, 3 rows: one byte per row, low three bits are padding
    let glyphs = [0b1010_1111, 0b0101_0111, 0b1111_1111];
    let raw = font_bytes(5, 3, 1, &glyphs, None);
    let font = Font::load(&raw).unwrap();
    let px = font.glyph_pixels(0);
    assert_eq!(px.len(), 15);
    for (k, p) in px.iter().enumerate() {
        assert_eq!(p.1 as usize, k % 5);
        assert_eq!(p.2 as usize, k / 5);
    }
    let bits: Vec<u8> = px.iter().map(|p| p.0).collect();
    assert_eq!(bits, vec![1, 0, 1, 0, 1, 0, 1, 0, 1, 0, 1, 1, 1, 1, 1]);
}

#[test]
fn wide_glyph_uses_row_stride() {
    // 12 pixels wide, 2 rows: two bytes per row
    let glyphs = [0xff, 0xf0, 0x80, 0x10];
    let raw = font_bytes(12, 2, 1, &glyphs, None);
    let font = Font::load(&raw).unwrap();
    let mut count = 0;
    let mut ones = Vec::new();
    font.display_glyph(0, |bit, x, y| {
        count += 1;
        assert!(x < 12 && y < 2);
        if bit == 1 {
            ones.push((x, y));
        }
    });
    assert_eq!(count, 24);
    let mut want: Vec<(u8, u8)> = (0..12).map(|x| (x, 0)).collect();
    want.push((0, 1));
    want.push((11, 1));
    assert_eq!(ones, want);
}

#[test]
fn repeated_display_is_identical() {
    let raw = cp437_like();
    let font = Font::load(&raw).unwrap();
    let mut a = Vec::new();
    let mut b = Vec::new();
    font.display_glyph('A' as u32, |bit, x, y| a.push((bit, x, y)));
    font.display_glyph('A' as u32, |bit, x, y| b.push((bit, x, y)));
    assert_eq!(a, b);
    assert_eq!(font.glyph_pixels(0x41), font.glyph_pixels(0x41));
}

#[test]
fn out_of_range_glyph_displays_nothing() {
    let raw = font_bytes(8, 1, 16, &[0u8; 16], None);
    let font = Font::load(&raw).unwrap();
    let mut count = 0;
    font.display_glyph('A' as u32, |_, _, _| count += 1);
    assert_eq!(count, 0);
}

#[test]
fn reads_little_endian() {
    assert_eq!(as_u32_le(&[1, 2, 3, 4]), Some(0x0403_0201));
    assert_eq!(as_u32_le(&[0xff, 0xff, 0xff, 0xff, 9]), Some(u32::MAX));
    assert_eq!(as_u32_le(&[1, 2, 3]), None);
}

#[test]
fn flags_use_bit_zero() {
    assert!(Flags::parse(&[1, 0, 0, 0]).unicode);
    assert!(Flags::parse(&[3, 0, 0, 0]).unicode);
    assert!(!Flags::parse(&[2, 0, 0, 0]).unicode);
    assert!(!Flags::parse(&[0, 1, 0, 0]).unicode);
}

#[test]
fn header_fields() {
    let raw = cp437_like();
    let h = Header::parse(&raw).unwrap();
    assert_eq!(h.magic, [0x72, 0xb5, 0x4a, 0x86]);
    assert_eq!(h.version, 0);
    assert_eq!(h.size, 32);
    assert!(h.flags.unicode);
    assert_eq!(h.length, 256);
    assert_eq!(h.glyph_size, 16);
    assert_eq!(h.glyph_height, 16);
    assert_eq!(h.glyph_width, 8);
    assert_eq!(Header::parse(&raw[..20]).err(), Some(LoadError::Malformed));
    let font = Font::load(&raw).unwrap();
    assert_eq!(font.header.glyph_width, 8);
}

#[test]
fn later_entry_wins_for_repeated_sequence() {
    // glyph 0 and glyph 1 both list U+00E9; the later one is kept
    let table = [0xc3, 0xa9, 0xff, 0xc3, 0xa9, 0xff];
    let raw = font_bytes(8, 1, 2, &[0u8; 2], Some(&table));
    let font = Font::load(&raw).unwrap();
    assert_eq!(font.glyph_index(0xe9), Some(1));
}
