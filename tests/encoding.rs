use prismarine_world_lite::bit_array::BitArray;
use prismarine_world_lite::encoding::{write_be_u64, write_palette_container, write_varint};
use prismarine_world_lite::palette::PaletteContainer;
use prismarine_world_lite::parsing::{parse_palette_container, read_varint};

fn slots(c: &PaletteContainer, capacity: usize) -> Vec<u32> {
    (0..capacity).map(|i| c.get(i)).collect()
}

#[test]
fn varint_bytes_written() {
    let mut out = vec![0xaa];
    write_varint(&mut out, 300);
    assert_eq!(out, vec![0xaa, 0xac, 0x02]);
    let mut out = Vec::new();
    write_varint(&mut out, u32::MAX);
    assert_eq!(out, vec![0xff, 0xff, 0xff, 0xff, 0x0f]);
    let mut out = Vec::new();
    write_varint(&mut out, 0);
    assert_eq!(out, vec![0x00]);
}

#[test]
fn varint_write_then_read() {
    for v in [0u32, 1, 127, 128, 16383, 16384, 2097151, 2097152, 268435455, 268435456, u32::MAX] {
        let mut out = Vec::new();
        write_varint(&mut out, v);
        let (read, end) = read_varint(&out, 0).unwrap();
        assert_eq!(read as u32, v);
        assert_eq!(end, out.len());
    }
}

#[test]
fn be_word_written() {
    let mut out = Vec::new();
    write_be_u64(&mut out, 0x0102_0304_0506_0708);
    assert_eq!(out, vec![1, 2, 3, 4, 5, 6, 7, 8]);
}

#[test]
fn single_container_round_trip() {
    let bytes = [0x00, 0x2a, 0x00];
    let (first, _) = parse_palette_container(&bytes, 0, 4096, 8, 15).unwrap();
    let mut out = Vec::new();
    write_palette_container(&first, &mut out);
    assert_eq!(out, bytes.to_vec());
    let (second, end) = parse_palette_container(&out, 0, 4096, 8, 15).unwrap();
    assert_eq!(end, out.len());
    assert_eq!(slots(&first, 4096), slots(&second, 4096));
}

#[test]
fn indirect_container_round_trip() {
    let mut c = PaletteContainer::new_single(0);
    for i in 0..40u32 {
        c.set((i * 97) as usize % 4096, i * 3 + 1, 15, 8, 4096);
    }
    let mut bytes = Vec::new();
    write_palette_container(&c, &mut bytes);
    let (first, end) = parse_palette_container(&bytes, 0, 4096, 8, 15).unwrap();
    assert_eq!(end, bytes.len());
    assert_eq!(slots(&first, 4096), slots(&c, 4096));
    let mut again = Vec::new();
    write_palette_container(&first, &mut again);
    assert_eq!(again, bytes);
    let (second, _) = parse_palette_container(&again, 0, 4096, 8, 15).unwrap();
    assert_eq!(slots(&first, 4096), slots(&second, 4096));
}

#[test]
fn direct_container_round_trip() {
    let mut c = PaletteContainer::new_direct(BitArray::new(6, 64));
    for i in 0..64usize {
        c.set(i, (i as u32 * 5) % 64, 6, 3, 64);
    }
    let mut bytes = Vec::new();
    write_palette_container(&c, &mut bytes);
    bytes.push(0xee);
    let (first, end) = parse_palette_container(&bytes, 0, 64, 3, 6).unwrap();
    assert_eq!(end, bytes.len() - 1);
    assert_eq!(slots(&first, 64), slots(&c, 64));
}

#[test]
fn promoted_biome_container_round_trip() {
    let mut c = PaletteContainer::new_single(0);
    for i in 1..8u32 {
        c.set(i as usize * 3, i, 6, 3, 64);
    }
    let mut bytes = Vec::new();
    write_palette_container(&c, &mut bytes);
    assert_eq!(bytes[0], 3);
    let (first, end) = parse_palette_container(&bytes, 0, 64, 3, 6).unwrap();
    assert_eq!(end, bytes.len());
    assert!(matches!(first, PaletteContainer::Indirect { .. }));
    assert_eq!(slots(&first, 64), slots(&c, 64));
}
