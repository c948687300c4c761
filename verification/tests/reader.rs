use ase_chunks::reader::AseReader;
use ase_chunks::AsepriteParseError;

#[test]
fn byte_reads_in_order_and_stops_at_the_end() {
    let data = [7u8, 9];
    let mut reader = AseReader::new(&data);
    assert_eq!(reader.byte(), Ok(7));
    assert_eq!(reader.byte(), Ok(9));
    assert_eq!(reader.byte(), Err(AsepriteParseError::UnexpectedEof));
    assert_eq!(reader.byte(), Err(AsepriteParseError::UnexpectedEof));
}

#[test]
fn word_is_little_endian() {
    let data = [0x34u8, 0x12, 0xff, 0xff];
    let mut reader = AseReader::new(&data);
    assert_eq!(reader.word(), Ok(0x1234));
    assert_eq!(reader.word(), Ok(0xffff));
    assert_eq!(reader.word(), Err(AsepriteParseError::UnexpectedEof));
}

#[test]
fn word_fails_on_a_single_byte_and_leaves_it() {
    let data = [0x34u8];
    let mut reader = AseReader::new(&data);
    assert_eq!(reader.word(), Err(AsepriteParseError::UnexpectedEof));
    assert_eq!(reader.byte(), Ok(0x34));
}

#[test]
fn dword_is_little_endian() {
    let data = [0x78u8, 0x56, 0x34, 0x12, 0xff, 0xff, 0xff, 0xff, 0, 0, 0, 0x80];
    let mut reader = AseReader::new(&data);
    assert_eq!(reader.dword(), Ok(0x1234_5678));
    assert_eq!(reader.dword(), Ok(u32::MAX));
    assert_eq!(reader.dword(), Ok(0x8000_0000));
    assert_eq!(reader.dword(), Err(AsepriteParseError::UnexpectedEof));
}

#[test]
fn dword_fails_on_three_bytes_and_leaves_them() {
    let data = [1u8, 2, 3];
    let mut reader = AseReader::new(&data);
    assert_eq!(reader.dword(), Err(AsepriteParseError::UnexpectedEof));
    assert_eq!(reader.word(), Ok(0x0201));
    assert_eq!(reader.byte(), Ok(3));
}

#[test]
fn long_is_twos_complement() {
    let data = [
        0xffu8, 0xff, 0xff, 0xff, 0, 0, 0, 0x80, 0xff, 0xff, 0xff, 0x7f, 0xfe, 0xff, 0xff, 0xff,
        10, 0, 0, 0,
    ];
    let mut reader = AseReader::new(&data);
    assert_eq!(reader.long(), Ok(-1));
    assert_eq!(reader.long(), Ok(i32::MIN));
    assert_eq!(reader.long(), Ok(i32::MAX));
    assert_eq!(reader.long(), Ok(-2));
    assert_eq!(reader.long(), Ok(10));
    assert_eq!(reader.long(), Err(AsepriteParseError::UnexpectedEof));
}

#[test]
fn long_agrees_with_std_on_sample_values() {
    for value in [0i32, 1, -1, 255, 256, -256, 65_536, -65_537, 123_456_789, -987_654_321] {
        let data = value.to_le_bytes();
        let mut reader = AseReader::new(&data);
        assert_eq!(reader.long(), Ok(value));
    }
}

#[test]
fn dword_agrees_with_std_on_sample_values() {
    for value in [0u32, 1, 255, 256, 65_535, 65_536, 16_777_215, 16_777_216, 4_000_000_000] {
        let data = value.to_le_bytes();
        let mut reader = AseReader::new(&data);
        assert_eq!(reader.dword(), Ok(value));
    }
}

#[test]
fn string_reads_length_then_text() {
    let data = [5u8, 0, b'G', b'r', b'a', b's', b's', 42];
    let mut reader = AseReader::new(&data);
    assert_eq!(reader.string(), Ok(String::from("Grass")));
    assert_eq!(reader.byte(), Ok(42));
}

#[test]
fn string_may_be_empty() {
    let data = [0u8, 0, 1];
    let mut reader = AseReader::new(&data);
    assert_eq!(reader.string(), Ok(String::new()));
    assert_eq!(reader.byte(), Ok(1));
}

#[test]
fn string_decodes_utf8_beyond_ascii() {
    let text = "Grün 草 🎨";
    let mut data = vec![text.len() as u8, 0];
    data.extend_from_slice(text.as_bytes());
    let mut reader = AseReader::new(&data);
    assert_eq!(reader.string(), Ok(String::from(text)));
    assert_eq!(reader.byte(), Err(AsepriteParseError::UnexpectedEof));
}

#[test]
fn string_with_a_long_length_prefix() {
    let text = "x".repeat(300);
    let mut data = vec![0x2c, 0x01];
    data.extend_from_slice(text.as_bytes());
    let mut reader = AseReader::new(&data);
    assert_eq!(reader.string(), Ok(text));
}

#[test]
fn string_refuses_invalid_utf8() {
    let data = [2u8, 0, 0xc3, 0x28, 9];
    let mut reader = AseReader::new(&data);
    assert_eq!(reader.string(), Err(AsepriteParseError::InvalidUtf8));
    // A failed read leaves the cursor where it was.
    assert_eq!(reader.word(), Ok(2));
}

#[test]
fn string_refuses_a_cut_multibyte_character() {
    let data = [2u8, 0, 0xe8, 0x8d];
    let mut reader = AseReader::new(&data);
    assert_eq!(reader.string(), Err(AsepriteParseError::InvalidUtf8));
}

#[test]
fn string_that_is_cut_short_is_truncated_not_invalid() {
    // Three bytes are announced, two are there, and those two are not UTF-8.
    let data = [3u8, 0, 0xff, 0xff];
    let mut reader = AseReader::new(&data);
    assert_eq!(reader.string(), Err(AsepriteParseError::UnexpectedEof));
    assert_eq!(reader.word(), Ok(3));
}

#[test]
fn string_without_a_whole_length_prefix() {
    let data = [3u8];
    let mut reader = AseReader::new(&data);
    assert_eq!(reader.string(), Err(AsepriteParseError::UnexpectedEof));
    let empty: [u8; 0] = [];
    let mut reader = AseReader::new(&empty);
    assert_eq!(reader.string(), Err(AsepriteParseError::UnexpectedEof));
}

#[test]
fn skip_reserved_moves_the_cursor() {
    let data = [0u8, 1, 2, 3, 4, 5, 6, 7, 8, 9];
    let mut reader = AseReader::new(&data);
    assert_eq!(reader.skip_reserved(8), Ok(()));
    assert_eq!(reader.byte(), Ok(8));
    assert_eq!(reader.skip_reserved(0), Ok(()));
    assert_eq!(reader.skip_reserved(2), Err(AsepriteParseError::UnexpectedEof));
    assert_eq!(reader.skip_reserved(1), Ok(()));
    assert_eq!(reader.skip_reserved(0), Ok(()));
    assert_eq!(reader.byte(), Err(AsepriteParseError::UnexpectedEof));
}

#[test]
fn skip_reserved_of_more_than_any_buffer_holds() {
    let data = [0u8; 4];
    let mut reader = AseReader::new(&data);
    assert_eq!(reader.skip_reserved(usize::MAX), Err(AsepriteParseError::UnexpectedEof));
    assert_eq!(reader.dword(), Ok(0));
}
