use ase_chunks::palette::parse_chunk;
use ase_chunks::pixel::Indexed;
use ase_chunks::{AsepriteParseError, ColorPalette};

/// One entry as the chunk holds it: flags, four channels, and the name if
/// there is one.
fn entry_bytes(flags: u16, rgba: [u8; 4], name: Option<&str>) -> Vec<u8> {
    let mut out = Vec::new();
    out.extend_from_slice(&flags.to_le_bytes());
    out.extend_from_slice(&rgba);
    if let Some(name) = name {
        out.extend_from_slice(&(name.len() as u16).to_le_bytes());
        out.extend_from_slice(name.as_bytes());
    }
    out
}

/// The 20 bytes of a chunk header.
fn header_bytes(total: u32, first: u32, last: u32) -> Vec<u8> {
    let mut out = Vec::new();
    out.extend_from_slice(&total.to_le_bytes());
    out.extend_from_slice(&first.to_le_bytes());
    out.extend_from_slice(&last.to_le_bytes());
    out.extend_from_slice(&[0u8; 8]);
    out
}

/// A chunk whose entries start at `first`; an entry has the name flag
/// exactly if it has a name.
fn chunk_bytes(first: u32, entries: &[([u8; 4], Option<&str>)]) -> Vec<u8> {
    let last = first + entries.len() as u32 - 1;
    let mut out = header_bytes(entries.len() as u32, first, last);
    for (rgba, name) in entries {
        out.extend(entry_bytes(if name.is_some() { 1 } else { 0 }, *rgba, *name));
    }
    out
}

/// Writes a decoded palette of the indices `first..=last` as a chunk.
fn encode(palette: &ColorPalette, first: u32, last: u32) -> Vec<u8> {
    let mut out = header_bytes(palette.num_colors(), first, last);
    for id in first..=last {
        let entry = palette.color(id).unwrap();
        let flags = if entry.name().is_some() { 1 } else { 0 };
        out.extend(entry_bytes(flags, entry.raw_rgba8(), entry.name()));
    }
    out
}

fn three_colors() -> ColorPalette {
    parse_chunk(&chunk_bytes(
        0,
        &[([1, 2, 3, 4], None), ([5, 6, 7, 8], None), ([9, 10, 11, 12], None)],
    ))
    .unwrap()
}

#[test]
fn two_entries_red_and_named_green() {
    let mut data = header_bytes(2, 0, 1);
    data.extend(entry_bytes(0, [255, 0, 0, 255], None));
    data.extend(entry_bytes(1, [0, 255, 0, 255], Some("Grass")));
    let palette = parse_chunk(&data).unwrap();
    assert_eq!(palette.num_colors(), 2);

    let red = palette.color(0).unwrap();
    assert_eq!(red.id(), 0);
    assert_eq!(red.red(), 255);
    assert_eq!(red.green(), 0);
    assert_eq!(red.blue(), 0);
    assert_eq!(red.alpha(), 255);
    assert_eq!(red.name(), None);

    let green = palette.color(1).unwrap();
    assert_eq!(green.id(), 1);
    assert_eq!(green.red(), 0);
    assert_eq!(green.green(), 255);
    assert_eq!(green.blue(), 0);
    assert_eq!(green.alpha(), 255);
    assert_eq!(green.name(), Some("Grass"));

    assert!(palette.color(2).is_none());
}

#[test]
fn the_bytes_of_the_two_entry_chunk_written_out() {
    let data: [u8; 39] = [
        2, 0, 0, 0, // total
        0, 0, 0, 0, // first
        1, 0, 0, 0, // last
        0, 0, 0, 0, 0, 0, 0, 0, // reserved
        0, 0, 255, 0, 0, 255, // entry 0
        1, 0, 0, 255, 0, 255, 5, 0, b'G', b'r', b'a', b's', b's', // entry 1
    ];
    let palette = parse_chunk(&data).unwrap();
    assert_eq!(palette.num_colors(), 2);
    assert_eq!(palette.color(0).unwrap().raw_rgba8(), [255, 0, 0, 255]);
    assert_eq!(palette.color(1).unwrap().raw_rgba8(), [0, 255, 0, 255]);
    assert_eq!(palette.color(1).unwrap().name(), Some("Grass"));
}

#[test]
fn channels_are_red_green_blue_alpha_in_that_order() {
    let palette = parse_chunk(&chunk_bytes(0, &[([10, 20, 30, 40], None)])).unwrap();
    let entry = palette.color(0).unwrap();
    assert_eq!(entry.raw_rgba8(), [10, 20, 30, 40]);
    assert_eq!(entry.red(), 10);
    assert_eq!(entry.green(), 20);
    assert_eq!(entry.blue(), 30);
    assert_eq!(entry.alpha(), 40);
}

#[test]
fn num_colors_is_the_size_of_the_range() {
    for (first, count) in [(0u32, 1usize), (0, 7), (5, 5), (200, 100), (4_000_000_000, 3)] {
        let entries: Vec<([u8; 4], Option<&str>)> =
            (0..count).map(|i| ([i as u8, 0, 0, 255], None)).collect();
        let palette = parse_chunk(&chunk_bytes(first, &entries)).unwrap();
        assert_eq!(palette.num_colors(), count as u32);
    }
}

#[test]
fn entries_stand_under_the_indices_of_the_range_only() {
    let palette = parse_chunk(&chunk_bytes(
        3,
        &[([30, 0, 0, 0], None), ([40, 0, 0, 0], Some("four")), ([50, 0, 0, 0], None)],
    ))
    .unwrap();
    assert_eq!(palette.num_colors(), 3);
    for id in [0u32, 1, 2, 6, 7, u32::MAX] {
        assert!(palette.color(id).is_none());
    }
    for id in 3u32..=5 {
        let entry = palette.color(id).unwrap();
        assert_eq!(entry.id(), id);
        assert_eq!(entry.red(), id as u8 * 10);
    }
    assert_eq!(palette.color(4).unwrap().name(), Some("four"));
}

#[test]
fn the_range_may_end_at_the_largest_index() {
    let palette =
        parse_chunk(&chunk_bytes(u32::MAX - 1, &[([1, 1, 1, 1], None), ([2, 2, 2, 2], None)]))
            .unwrap();
    assert_eq!(palette.num_colors(), 2);
    assert_eq!(palette.color(u32::MAX).unwrap().red(), 2);
    assert_eq!(palette.color(u32::MAX).unwrap().id(), u32::MAX);
    assert_eq!(palette.color(u32::MAX - 1).unwrap().red(), 1);
}

#[test]
fn the_total_count_of_the_header_is_not_used() {
    let mut data = header_bytes(1000, 0, 0);
    data.extend(entry_bytes(0, [1, 2, 3, 4], None));
    assert_eq!(parse_chunk(&data).unwrap().num_colors(), 1);

    let mut data = header_bytes(0, 0, 1);
    data.extend(entry_bytes(0, [1, 2, 3, 4], None));
    data.extend(entry_bytes(0, [5, 6, 7, 8], None));
    assert_eq!(parse_chunk(&data).unwrap().num_colors(), 2);
}

#[test]
fn only_the_lowest_flag_bit_announces_a_name() {
    // Bit 1 is set, bit 0 is not: no name follows.
    let mut data = header_bytes(2, 0, 1);
    data.extend(entry_bytes(0xfffe, [1, 2, 3, 4], None));
    data.extend(entry_bytes(0x8001, [5, 6, 7, 8], Some("n")));
    let palette = parse_chunk(&data).unwrap();
    assert_eq!(palette.color(0).unwrap().name(), None);
    assert_eq!(palette.color(1).unwrap().name(), Some("n"));
    assert_eq!(palette.color(1).unwrap().red(), 5);
}

#[test]
fn names_may_be_empty_or_beyond_ascii() {
    let palette = parse_chunk(&chunk_bytes(
        0,
        &[([0, 0, 0, 0], Some("")), ([1, 1, 1, 1], Some("Grün 草")), ([2, 2, 2, 2], None)],
    ))
    .unwrap();
    assert_eq!(palette.color(0).unwrap().name(), Some(""));
    assert_eq!(palette.color(1).unwrap().name(), Some("Grün 草"));
    assert_eq!(palette.color(2).unwrap().name(), None);
    assert_eq!(palette.color(2).unwrap().red(), 2);
}

#[test]
fn bytes_behind_the_last_entry_are_left_alone() {
    let mut data = chunk_bytes(0, &[([1, 2, 3, 4], None)]);
    data.extend_from_slice(&[0xff; 10]);
    let palette = parse_chunk(&data).unwrap();
    assert_eq!(palette.num_colors(), 1);
}

#[test]
fn inverted_range_is_refused() {
    let data = header_bytes(0, 5, 4);
    assert_eq!(
        parse_chunk(&data).unwrap_err(),
        AsepriteParseError::InvalidPaletteRange { first: 5, last: 4 }
    );
    let data = header_bytes(0, u32::MAX, 0);
    assert_eq!(
        parse_chunk(&data).unwrap_err(),
        AsepriteParseError::InvalidPaletteRange { first: u32::MAX, last: 0 }
    );
}

#[test]
fn inverted_range_is_refused_whatever_follows_the_header() {
    let expected = AsepriteParseError::InvalidPaletteRange { first: 2, last: 1 };
    // Nothing follows.
    assert_eq!(parse_chunk(&header_bytes(2, 2, 1)).unwrap_err(), expected);
    // Well-formed entries follow.
    let mut data = header_bytes(2, 2, 1);
    data.extend(entry_bytes(0, [1, 2, 3, 4], None));
    data.extend(entry_bytes(1, [1, 2, 3, 4], Some("name")));
    assert_eq!(parse_chunk(&data).unwrap_err(), expected);
    // An entry with a name that is not UTF-8 follows.
    let mut data = header_bytes(2, 2, 1);
    data.extend_from_slice(&[1, 0, 0, 0, 0, 0, 1, 0, 0xff]);
    assert_eq!(parse_chunk(&data).unwrap_err(), expected);
    // A cut entry follows.
    let mut data = header_bytes(2, 2, 1);
    data.extend_from_slice(&[0, 0, 1]);
    assert_eq!(parse_chunk(&data).unwrap_err(), expected);
}

#[test]
fn a_cut_header_is_truncated_even_if_the_range_is_inverted() {
    let data = header_bytes(0, 5, 4);
    for len in 0..20 {
        assert_eq!(parse_chunk(&data[..len]).unwrap_err(), AsepriteParseError::UnexpectedEof);
    }
}

#[test]
fn name_that_is_not_utf8_is_refused() {
    let mut data = header_bytes(1, 0, 0);
    data.extend_from_slice(&[1, 0, 9, 9, 9, 9, 2, 0, 0xc3, 0x28]);
    assert_eq!(parse_chunk(&data).unwrap_err(), AsepriteParseError::InvalidUtf8);
}

#[test]
fn the_first_entry_that_fails_decides_the_error() {
    // Entry 0 has a name that is not UTF-8; entry 1 is missing.
    let mut data = header_bytes(2, 0, 1);
    data.extend_from_slice(&[1, 0, 9, 9, 9, 9, 1, 0, 0xff]);
    assert_eq!(parse_chunk(&data).unwrap_err(), AsepriteParseError::InvalidUtf8);
    // Entry 0 is fine; entry 1 is missing; nothing is said of entry 0 alone.
    let mut data = header_bytes(2, 0, 1);
    data.extend(entry_bytes(0, [1, 2, 3, 4], None));
    assert_eq!(parse_chunk(&data).unwrap_err(), AsepriteParseError::UnexpectedEof);
}

#[test]
fn every_proper_prefix_of_a_chunk_is_truncated() {
    let data = chunk_bytes(
        7,
        &[([1, 2, 3, 4], None), ([5, 6, 7, 8], Some("Grass")), ([9, 9, 9, 9], Some("草"))],
    );
    assert!(parse_chunk(&data).is_ok());
    for len in 0..data.len() {
        assert_eq!(
            parse_chunk(&data[..len]).unwrap_err(),
            AsepriteParseError::UnexpectedEof,
            "prefix of {} bytes",
            len
        );
    }
}

#[test]
fn a_range_too_large_for_the_buffer_is_truncated() {
    let mut data = header_bytes(0, 0, u32::MAX);
    data.extend(entry_bytes(0, [1, 2, 3, 4], None));
    data.extend(entry_bytes(0, [1, 2, 3, 4], None));
    assert_eq!(parse_chunk(&data).unwrap_err(), AsepriteParseError::UnexpectedEof);
}

#[test]
fn writing_a_decoded_palette_and_decoding_again_gives_the_same() {
    let mut data = header_bytes(77, 10, 13);
    data.extend(entry_bytes(0xfffe, [1, 2, 3, 4], None));
    data.extend(entry_bytes(0x0101, [5, 6, 7, 8], Some("Grass")));
    data.extend(entry_bytes(1, [9, 10, 11, 12], Some("")));
    data.extend(entry_bytes(1, [13, 14, 15, 16], Some("Grün 草 🎨")));
    data.extend_from_slice(&[1, 2, 3]);
    let decoded = parse_chunk(&data).unwrap();
    let written = encode(&decoded, 10, 13);
    let again = parse_chunk(&written).unwrap();
    assert_eq!(again.num_colors(), decoded.num_colors());
    for id in 0u32..20 {
        match (decoded.color(id), again.color(id)) {
            (None, None) => assert!(!(10..=13).contains(&id)),
            (Some(a), Some(b)) => {
                assert_eq!(a.id(), b.id());
                assert_eq!(a.raw_rgba8(), b.raw_rgba8());
                assert_eq!(a.name(), b.name());
            }
            _ => panic!("entry {} is in one palette only", id),
        }
    }
    // What was written is a chunk without the unused bits and bytes, and
    // writing it again changes nothing.
    assert_eq!(encode(&again, 10, 13), written);
}

#[test]
fn pixels_within_the_palette_are_valid() {
    let palette = three_colors();
    let pixels = [Indexed::new(0), Indexed::new(2), Indexed::new(1)];
    assert_eq!(palette.validate_indexed_pixels(&pixels), Ok(()));
    assert_eq!(palette.validate_indexed_pixels(&[]), Ok(()));
}

#[test]
fn pixel_beyond_the_palette_is_reported() {
    let palette = three_colors();
    assert_eq!(
        palette.validate_indexed_pixels(&[Indexed::new(3)]),
        Err(AsepriteParseError::IndexOutOfRange { index: 3, num_colors: 3 })
    );
}

#[test]
fn the_first_pixel_without_an_entry_is_the_one_reported() {
    let palette = three_colors();
    let pixels = [Indexed::new(1), Indexed::new(200), Indexed::new(0), Indexed::new(7)];
    assert_eq!(
        palette.validate_indexed_pixels(&pixels),
        Err(AsepriteParseError::IndexOutOfRange { index: 200, num_colors: 3 })
    );
}

#[test]
fn pixels_are_checked_against_entries_not_against_the_count() {
    // Three colors under the indices 5, 6 and 7.
    let palette =
        parse_chunk(&chunk_bytes(5, &[([0; 4], None), ([0; 4], None), ([0; 4], None)])).unwrap();
    assert_eq!(palette.validate_indexed_pixels(&[Indexed::new(5), Indexed::new(7)]), Ok(()));
    assert_eq!(
        palette.validate_indexed_pixels(&[Indexed::new(6), Indexed::new(1)]),
        Err(AsepriteParseError::IndexOutOfRange { index: 1, num_colors: 3 })
    );
}

#[test]
fn indexed_pixel_keeps_its_value() {
    assert_eq!(Indexed::new(0).value(), 0);
    assert_eq!(Indexed::new(17).value(), 17);
    assert_eq!(Indexed::new(255).value(), 255);
}

#[test]
fn a_palette_of_all_byte_indices() {
    let entries: Vec<([u8; 4], Option<&str>)> =
        (0..256).map(|i| ([i as u8, 255 - i as u8, 0, 255], None)).collect();
    let palette = parse_chunk(&chunk_bytes(0, &entries)).unwrap();
    assert_eq!(palette.num_colors(), 256);
    let pixels: Vec<Indexed> = (0..=255u8).map(Indexed::new).collect();
    assert_eq!(palette.validate_indexed_pixels(&pixels), Ok(()));
    assert_eq!(palette.color(200).unwrap().green(), 55);
}
