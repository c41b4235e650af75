use prismarine_world_lite::chunk::{ChunkColumn, ChunkSection};
use prismarine_world_lite::coords::{BiomeCoords, SectionRelCoords, WorldCoords};
use prismarine_world_lite::palette::PaletteContainer;

fn air_section() -> ChunkSection {
    ChunkSection::new(PaletteContainer::new_single(0), PaletteContainer::new_single(0), 0)
}

fn count_solid(s: &ChunkSection) -> i16 {
    let mut n = 0i16;
    for y in 0..16 {
        for z in 0..16 {
            for x in 0..16 {
                if s.get_block_state_id(SectionRelCoords { x, y, z }) != 0 {
                    n += 1;
                }
            }
        }
    }
    n
}

#[test]
fn section_solid_count_follows_sets() {
    let mut s = air_section();
    s.set_block_state_id(SectionRelCoords { x: 4, y: 6, z: 4 }, 5, 15);
    assert_eq!(s.solid_block_count(), 1);
    assert_eq!(s.get_block_state_id(SectionRelCoords { x: 4, y: 6, z: 4 }), 5);
    assert_eq!(s.get_block_state_id(SectionRelCoords { x: 5, y: 6, z: 4 }), 0);
    s.set_block_state_id(SectionRelCoords { x: 4, y: 6, z: 4 }, 9, 15);
    assert_eq!(s.solid_block_count(), 1);
    s.set_block_state_id(SectionRelCoords { x: 0, y: 0, z: 0 }, 1, 15);
    assert_eq!(s.solid_block_count(), 2);
    s.set_block_state_id(SectionRelCoords { x: 4, y: 6, z: 4 }, 0, 15);
    assert_eq!(s.solid_block_count(), 1);
    s.set_block_state_id(SectionRelCoords { x: 9, y: 9, z: 9 }, 0, 15);
    assert_eq!(s.solid_block_count(), 1);
    assert_eq!(s.solid_block_count(), count_solid(&s));
}

#[test]
fn section_biomes_do_not_touch_count() {
    let mut s = air_section();
    s.set_biome_id(BiomeCoords { x: 1, y: 2, z: 3 }, 7);
    assert_eq!(s.get_biome_id(BiomeCoords { x: 1, y: 2, z: 3 }), 7);
    assert_eq!(s.get_biome_id(BiomeCoords { x: 0, y: 2, z: 3 }), 0);
    assert_eq!(s.solid_block_count(), 0);
}

#[test]
fn column_missing_sections_read_zero() {
    let c = ChunkColumn::new();
    assert_eq!(c.sections.len(), 24);
    assert_eq!(c.get_block_state_id(WorldCoords { x: 3, y: 10, z: 3 }), 0);
    assert_eq!(c.get_biome_id(WorldCoords { x: 3, y: 10, z: 3 }), 0);
    assert!(c.get_section(0).is_none());
    assert!(c.export_section_states(0).is_none());
}

#[test]
fn column_set_creates_section_only_for_non_air() {
    let mut c = ChunkColumn::new();
    c.set_block_state_id(WorldCoords { x: 1, y: 100, z: 1 }, 0, 15);
    assert!(c.get_section(6).is_none());
    c.set_block_state_id(WorldCoords { x: 1, y: 100, z: 1 }, 33, 15);
    assert!(c.get_section(6).is_some());
    assert_eq!(c.get_block_state_id(WorldCoords { x: 1, y: 100, z: 1 }), 33);
    assert_eq!(c.get_block_state_id(WorldCoords { x: 17, y: 100, z: -15 }), 33);
    assert_eq!(c.get_block_state_id(WorldCoords { x: 2, y: 100, z: 1 }), 0);
    assert_eq!(c.get_section(6).unwrap().solid_block_count(), 1);
    assert_eq!(c.get_block_type_id(WorldCoords { x: 1, y: 100, z: 1 }), 33);
}

#[test]
fn column_ignores_out_of_world() {
    let mut c = ChunkColumn::new();
    c.set_block_state_id(WorldCoords { x: 0, y: 320, z: 0 }, 5, 15);
    c.set_block_state_id(WorldCoords { x: 0, y: -65, z: 0 }, 5, 15);
    assert!(c.sections.iter().all(|s| s.is_none()));
    assert_eq!(c.get_block_state_id(WorldCoords { x: 0, y: 320, z: 0 }), 0);
    c.set_block_state_id(WorldCoords { x: 0, y: -64, z: 0 }, 5, 15);
    assert_eq!(c.get_block_state_id(WorldCoords { x: 0, y: -64, z: 0 }), 5);
    c.set_block_state_id(WorldCoords { x: 0, y: 319, z: 0 }, 6, 15);
    assert_eq!(c.get_block_state_id(WorldCoords { x: 0, y: 319, z: 0 }), 6);
}

#[test]
fn column_biomes() {
    let mut c = ChunkColumn::new();
    c.set_biome_id(WorldCoords { x: 5, y: 5, z: 5 }, 0);
    assert!(c.get_section(0).is_none());
    c.set_biome_id(WorldCoords { x: 5, y: 5, z: 5 }, 3);
    assert_eq!(c.get_biome_id(WorldCoords { x: 5, y: 5, z: 5 }), 3);
    assert_eq!(c.get_biome_id(WorldCoords { x: 4, y: 4, z: 4 }), 3);
    assert_eq!(c.get_biome_id(WorldCoords { x: 8, y: 5, z: 5 }), 0);
    assert_eq!(c.get_block_state_id(WorldCoords { x: 5, y: 5, z: 5 }), 0);
}

#[test]
fn column_light_placeholders() {
    let c = ChunkColumn::new();
    assert_eq!(c.get_block_light(WorldCoords { x: 0, y: 0, z: 0 }), 15);
    assert_eq!(c.get_sky_light(WorldCoords { x: 0, y: 0, z: 0 }), 15);
}

#[test]
fn column_section_access() {
    let mut c = ChunkColumn::new();
    c.insert_section(19, air_section());
    c.insert_section(20, air_section());
    assert!(c.get_section(19).is_some());
    assert!(c.get_section(20).is_none());
    let s = c.get_section_mut(19).unwrap();
    s.set_block_state_id(SectionRelCoords { x: 0, y: 15, z: 0 }, 8, 15);
    assert_eq!(c.get_block_state_id(WorldCoords { x: 0, y: 319, z: 0 }), 8);
    assert!(c.get_section_mut(-4).is_none());
}

#[test]
fn export_little_endian_states() {
    let mut c = ChunkColumn::new();
    c.set_block_state_id(WorldCoords { x: 3, y: 2, z: 1 }, 0x0102_0304, 32);
    let bytes = c.export_section_states(0).unwrap();
    assert_eq!(bytes.len(), 4096 * 4);
    let off = (2 * 256 + 16 + 3) * 4;
    assert_eq!(&bytes[off..off + 4], &[4, 3, 2, 1]);
    assert_eq!(&bytes[0..4], &[0, 0, 0, 0]);
}

#[test]
fn column_pre_checks_writes() {
    let mut c = ChunkColumn::new();
    assert!(c.can_set_block_state_id(WorldCoords { x: 0, y: 0, z: 0 }, u32::MAX, 15));
    c.set_block_state_id(WorldCoords { x: 0, y: 0, z: 0 }, 40000, 15);
    assert!(c.can_set_block_state_id(WorldCoords { x: 1, y: 0, z: 0 }, 7, 15));
    for i in 1..255i32 {
        c.set_block_state_id(WorldCoords { x: i % 16, y: i / 16, z: 1 }, i as u32, 15);
    }
    assert!(!c.can_set_block_state_id(WorldCoords { x: 1, y: 0, z: 0 }, 999, 15));
    assert!(c.can_set_block_state_id(WorldCoords { x: 1, y: 0, z: 0 }, 999, 16));
    assert!(c.can_set_block_state_id(WorldCoords { x: 1, y: 0, z: 0 }, 7, 15));
    assert!(c.can_set_block_state_id(WorldCoords { x: 1, y: 400, z: 0 }, 7, 15));
    assert!(c.can_set_biome_id(WorldCoords { x: 1, y: 0, z: 0 }, 63));
    let mut direct = ChunkColumn::new();
    direct.insert_section(
        0,
        ChunkSection::new(PaletteContainer::new_single(0), PaletteContainer::new_direct(
            prismarine_world_lite::bit_array::BitArray::new(6, 64),
        ), 0),
    );
    assert!(direct.can_set_biome_id(WorldCoords { x: 0, y: 0, z: 0 }, 63));
    assert!(!direct.can_set_biome_id(WorldCoords { x: 0, y: 0, z: 0 }, 64));
}

#[test]
fn column_write_creates_counted_section() {
    let mut c = ChunkColumn::new();
    c.set_block_state_id(WorldCoords { x: 2, y: -60, z: 3 }, 9, 15);
    let s = c.get_section(-4).unwrap();
    assert_eq!(s.solid_block_count(), 1);
    assert!(matches!(s.biomes(), PaletteContainer::Single(0)));
    assert!(c.sections[1..].iter().all(|s| s.is_none()));
    c.set_biome_id(WorldCoords { x: 2, y: -60, z: 3 }, 4);
    assert_eq!(c.get_section(-4).unwrap().solid_block_count(), 1);
    c.set_biome_id(WorldCoords { x: 2, y: 0, z: 3 }, 4);
    assert_eq!(c.get_section(0).unwrap().solid_block_count(), 0);
}
