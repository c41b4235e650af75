use prismarine_world_lite::coords::WorldCoords;
use prismarine_world_lite::palette::PaletteContainer;
use prismarine_world_lite::parsing::{
    parse_chunk_section, parse_column, parse_palette_container, read_long_array, read_varint,
    ParseError,
};

/// A section with an all-air block container and biome 0.
fn air_section_bytes(solid: i16) -> Vec<u8> {
    let mut v = solid.to_be_bytes().to_vec();
    v.extend_from_slice(&[0x00, 0x00, 0x00]);
    v.extend_from_slice(&[0x00, 0x00, 0x00]);
    v
}

#[test]
fn varint_values() {
    assert_eq!(read_varint(&[0x00], 0), Ok((0, 1)));
    assert_eq!(read_varint(&[0x7f], 0), Ok((127, 1)));
    assert_eq!(read_varint(&[0x80, 0x01], 0), Ok((128, 2)));
    assert_eq!(read_varint(&[0xff, 0x01], 0), Ok((255, 2)));
    assert_eq!(read_varint(&[0x9, 0xdd, 0xc7, 0x01], 1), Ok((25565, 4)));
    assert_eq!(read_varint(&[0xff, 0xff, 0xff, 0xff, 0x07], 0), Ok((i32::MAX, 5)));
    assert_eq!(read_varint(&[0xff, 0xff, 0xff, 0xff, 0x0f], 0), Ok((-1, 5)));
    assert_eq!(read_varint(&[0x80, 0x80, 0x80, 0x80, 0x08], 0), Ok((i32::MIN, 5)));
}

#[test]
fn varint_errors() {
    assert_eq!(read_varint(&[0xff, 0xff, 0xff, 0xff, 0xff, 0x01], 0), Err(ParseError::VarIntTooLong));
    assert_eq!(read_varint(&[0x80], 0), Err(ParseError::UnexpectedEof));
    assert_eq!(read_varint(&[], 0), Err(ParseError::UnexpectedEof));
}

#[test]
fn long_array_big_endian() {
    let bytes = [0, 1, 2, 3, 4, 5, 6, 7, 8, 9, 10, 11, 12, 13, 14, 15, 16];
    let (words, end) = read_long_array(&bytes, 1, 2).unwrap();
    assert_eq!(words, vec![0x0102_0304_0506_0708, 0x090a_0b0c_0d0e_0f10]);
    assert_eq!(end, 17);
    assert_eq!(read_long_array(&bytes, 2, 2), Err(ParseError::LongArrayTooLong));
    assert_eq!(read_long_array(&bytes, 17, 0), Ok((vec![], 17)));
    assert_eq!(read_long_array(&bytes, 18, 0), Err(ParseError::LongArrayTooLong));
}

#[test]
fn single_value_section() {
    let bytes = [0x00, 0x05, 0x00, 0x00, 0x00, 0x00, 0x00, 0x00];
    let (section, end) = parse_chunk_section(&bytes, 0, 15, 6).unwrap();
    assert_eq!(end, 8);
    assert_eq!(section.solid_block_count(), 5);
    assert!(matches!(section.block_states(), PaletteContainer::Single(0)));
    assert!(matches!(section.biomes(), PaletteContainer::Single(0)));
}

#[test]
fn negative_solid_count_is_read_signed() {
    let bytes = air_section_bytes(-2);
    let (section, _) = parse_chunk_section(&bytes, 0, 15, 6).unwrap();
    assert_eq!(section.solid_block_count(), -2);
}

#[test]
fn indirect_block_container() {
    let mut bytes = vec![0x04, 0x02, 0x00, 0x01, 0x80, 0x02];
    bytes.extend(std::iter::repeat(0u8).take(256 * 8));
    let (c, end) = parse_palette_container(&bytes, 0, 4096, 8, 15).unwrap();
    assert_eq!(end, bytes.len());
    match &c {
        PaletteContainer::Indirect { palette, data } => {
            assert_eq!(palette, &vec![0, 1]);
            assert_eq!(data.get_bits_per_value(), 4);
            assert_eq!(data.len(), 256);
        }
        _ => panic!("not indirect"),
    }
    for i in 0..4096usize {
        assert_eq!(c.get(i), 0);
    }
}

#[test]
fn indirect_indices_decode_through_palette() {
    let mut bytes = vec![0x04, 0x02, 0x07, 0x09, 0x80, 0x02];
    let mut word = vec![0u8; 8];
    word[7] = 0x10;
    bytes.extend(word);
    bytes.extend(std::iter::repeat(0u8).take(255 * 8));
    let (c, _) = parse_palette_container(&bytes, 0, 4096, 8, 15).unwrap();
    assert_eq!(c.get(0), 7);
    assert_eq!(c.get(1), 9);
    assert_eq!(c.get(2), 7);
}

#[test]
fn direct_container_uses_global_bits() {
    let mut bytes = vec![0x09, 0x80, 0x08];
    let mut word = vec![0u8; 8];
    word[7] = 0x2a;
    bytes.extend(word);
    bytes.extend(std::iter::repeat(0u8).take(1023 * 8));
    let (c, end) = parse_palette_container(&bytes, 0, 4096, 8, 15).unwrap();
    assert_eq!(end, bytes.len());
    match &c {
        PaletteContainer::Direct(data) => assert_eq!(data.get_bits_per_value(), 15),
        _ => panic!("not direct"),
    }
    assert_eq!(c.get(0), 42);
    assert_eq!(c.get(1), 0);
}

#[test]
fn container_errors() {
    assert_eq!(parse_palette_container(&[0x00, 0x00, 0x01], 0, 4096, 8, 15).err(), Some(ParseError::SingleDataNotEmpty));
    assert_eq!(parse_palette_container(&[0x04, 0x00], 0, 4096, 8, 15).err(), Some(ParseError::BadPaletteLength));
    assert_eq!(parse_palette_container(&[0x01, 0x41, 0x00], 0, 64, 3, 6).err(), Some(ParseError::BadPaletteLength));
    assert_eq!(
        parse_palette_container(&[0x04, 0xff, 0xff, 0xff, 0xff, 0x0f], 0, 4096, 8, 15).err(),
        Some(ParseError::NegativeLength)
    );
    assert_eq!(
        parse_palette_container(&[0x04, 0x01, 0x00, 0x80, 0x02, 0x00], 0, 4096, 8, 15).err(),
        Some(ParseError::LongArrayTooLong)
    );
    let mut short = vec![0x04, 0x01, 0x00, 0x01];
    short.extend([0u8; 8]);
    assert_eq!(parse_palette_container(&short, 0, 4096, 8, 15).err(), Some(ParseError::WordCountMismatch));
    let mut bad_index = vec![0x04, 0x01, 0x00, 0x80, 0x02];
    let mut word = vec![0u8; 8];
    word[7] = 0x01;
    bad_index.extend(word);
    bad_index.extend(std::iter::repeat(0u8).take(255 * 8));
    assert_eq!(parse_palette_container(&bad_index, 0, 4096, 8, 15).err(), Some(ParseError::PaletteIndexOutOfRange));
    assert_eq!(parse_palette_container(&[0x00, 0x80], 0, 4096, 8, 15).err(), Some(ParseError::UnexpectedEof));
    assert_eq!(parse_palette_container(&[], 0, 4096, 8, 15).err(), Some(ParseError::UnexpectedEof));
}

#[test]
fn section_errors() {
    assert_eq!(parse_chunk_section(&[0x00], 0, 15, 6).err(), Some(ParseError::UnexpectedEof));
    assert_eq!(
        parse_chunk_section(&[0x00, 0x00, 0x00, 0x00, 0x01], 0, 15, 6).err(),
        Some(ParseError::SingleDataNotEmpty)
    );
}

#[test]
fn column_of_air_sections() {
    let mut buf = Vec::new();
    for _ in 0..24 {
        buf.extend(air_section_bytes(0));
    }
    let mut column = parse_column(&buf, 15, 6).unwrap();
    for y in (-64..320).step_by(7) {
        for x in 0..16 {
            assert_eq!(column.get_block_state_id(WorldCoords { x, y, z: 15 - x }), 0);
        }
    }
    column.set_block_state_id(WorldCoords { x: 0, y: 70, z: 0 }, 42, 15);
    assert_eq!(column.get_block_state_id(WorldCoords { x: 0, y: 70, z: 0 }), 42);
    let bytes = column.export_section_states(4).unwrap();
    let off = ((70 % 16) * 256) * 4;
    assert_eq!(&bytes[off..off + 4], &42u32.to_le_bytes());
}

#[test]
fn column_stops_at_end_of_buffer() {
    let mut buf = air_section_bytes(0);
    buf.extend(air_section_bytes(0));
    buf.extend([0x00, 0x00, 0x00]);
    let column = parse_column(&buf, 15, 6).unwrap();
    assert!(column.sections[0].is_some());
    assert!(column.sections[1].is_some());
    assert!(column.sections[2].is_none());
    assert!(column.sections[23].is_none());
    let empty = parse_column(&[], 15, 6).unwrap();
    assert!(empty.sections.iter().all(|s| s.is_none()));
}

#[test]
fn column_rejects_malformed_section() {
    let mut buf = air_section_bytes(0);
    buf.extend([0x00, 0x00, 0x00, 0x00, 0x02]);
    assert_eq!(parse_column(&buf, 15, 6).err(), Some(ParseError::SingleDataNotEmpty));
}
