use prismarine_world_lite::coords::{
    get_biome_index, get_section_block_index, section_idx_to_section_y, section_y_to_section_idx,
    BiomeCoords, SectionRelCoords, WorldCoords, MAX_SECTION_Y, MIN_SECTION_Y, SECTION_COUNT,
};

#[test]
fn negative_coordinates_round_down() {
    let c = WorldCoords { x: -1, y: -64, z: -17 };
    let chunk = c.to_chunk_coords();
    assert_eq!((chunk.x, chunk.z), (-1, -2));
    let s = c.to_section_coords();
    assert_eq!((s.x, s.y, s.z), (-1, -4, -2));
    let r = c.to_section_rel_coords();
    assert_eq!((r.x, r.y, r.z), (15, 0, 15));
    let b = c.to_biome_coords();
    assert_eq!((b.x, b.y, b.z), (-1, -16, -5));
    assert_eq!(c.section_y_index(), -4);
    assert_eq!(c.biome_section_y_index(), -16);
}

#[test]
fn positive_coordinates() {
    let c = WorldCoords { x: 33, y: 70, z: 5 };
    let r = c.to_section_rel_coords();
    assert_eq!((r.x, r.y, r.z), (1, 6, 5));
    assert_eq!(c.section_y_index(), 4);
    assert_eq!(c.to_chunk_coords().x, 2);
}

#[test]
fn section_index_range() {
    assert_eq!(section_y_to_section_idx(MIN_SECTION_Y), Some(0));
    assert_eq!(section_y_to_section_idx(MAX_SECTION_Y), Some(SECTION_COUNT - 1));
    assert_eq!(section_y_to_section_idx(-5), None);
    assert_eq!(section_y_to_section_idx(20), None);
    assert_eq!(section_idx_to_section_y(0), -4);
    assert_eq!(section_idx_to_section_y(23), 19);
}

#[test]
fn flat_indices() {
    assert_eq!(get_section_block_index(SectionRelCoords { x: 1, y: 2, z: 3 }), 2 * 256 + 3 * 16 + 1);
    assert_eq!(get_section_block_index(SectionRelCoords { x: 15, y: 15, z: 15 }), 4095);
    assert_eq!(get_biome_index(BiomeCoords { x: 1, y: 2, z: 3 }), 2 * 16 + 3 * 4 + 1);
    assert_eq!(get_biome_index(BiomeCoords { x: -1, y: -1, z: -1 }), 63);
    assert_eq!(get_biome_index(BiomeCoords { x: 5, y: 6, z: 7 }), 2 * 16 + 3 * 4 + 1);
}
