//! World geometry and the coordinate conversions between world, chunk,
//! section and biome spaces.
//!
//! Divisions and remainders in the contracts are over `int`, where `/` and
//! `%` round towards negative infinity, which is what arithmetic shifts and
//! masks compute on two's-complement coordinates.
use vstd::prelude::*;

verus! {

/// Width and length of a chunk section in blocks.
pub const SECTION_WIDTH: i32 = 16;

/// Height of a chunk section in blocks.
pub const SECTION_HEIGHT: i32 = 16;

/// Number of blocks in a chunk section (16 * 16 * 16).
pub const SECTION_VOLUME: usize = 4096;

/// The lowest block Y of the world.
pub const MIN_CHUNK_Y: i32 = -64;

/// Height of the world in blocks.
pub const WORLD_HEIGHT: i32 = 384;

/// The first block Y above the world.
pub const MAX_CHUNK_Y: i32 = MIN_CHUNK_Y + WORLD_HEIGHT;

/// Number of vertical sections in a column (384 / 16).
pub const SECTION_COUNT: usize = 24;

/// Y index of the lowest section (-64 >> 4).
pub const MIN_SECTION_Y: i32 = -4;

/// Y index of the highest section, inclusive ((320 >> 4) - 1).
pub const MAX_SECTION_Y: i32 = 19;

/// Width, length and height of the biome grid of a section.
pub const BIOME_SECTION_DIM: i32 = 4;

/// Number of biome entries in a section (4 * 4 * 4).
pub const BIOME_SECTION_VOLUME: usize = 64;

/// Absolute world coordinates of a block.
#[derive(Debug, Clone, Copy, PartialEq, Eq, Hash, Structural)]
pub struct WorldCoords {
    pub x: i32,
    pub y: i32,
    pub z: i32,
}

/// X and Z coordinates of a chunk column.
#[derive(Debug, Clone, Copy, PartialEq, Eq, Hash, Structural)]
pub struct ChunkCoords {
    pub x: i32,
    pub z: i32,
}

/// Coordinates of a chunk section in the world grid; `y` is the section Y index.
#[derive(Debug, Clone, Copy, PartialEq, Eq, Hash, Structural)]
pub struct SectionCoords {
    pub x: i32,
    pub y: i32,
    pub z: i32,
}

/// Coordinates of a block relative to the min corner of its section (0 to 15).
#[derive(Debug, Clone, Copy, PartialEq, Eq, Hash, Structural)]
pub struct SectionRelCoords {
    pub x: i32,
    pub y: i32,
    pub z: i32,
}

/// Biome-grid coordinates: world coordinates shifted right by 2.
#[derive(Debug, Clone, Copy, PartialEq, Eq, Hash, Structural)]
pub struct BiomeCoords {
    pub x: i32,
    pub y: i32,
    pub z: i32,
}

/// Flat index of a block inside a section: Y-major, then Z, then X.
pub open spec fn block_index(x: int, y: int, z: int) -> int {
    y * 256 + z * 16 + x
}

/// Flat index of a biome entry inside a section, from biome-grid coordinates.
pub open spec fn biome_index(x: int, y: int, z: int) -> int {
    (y % 4) * 16 + (z % 4) * 4 + x % 4
}

/// Slot of the section holding block Y `y` in a column, if it lies in the world.
pub open spec fn section_slot(y: int) -> Option<int> {
    let idx = y / 16 - MIN_SECTION_Y;
    if 0 <= idx < SECTION_COUNT {
        Some(idx)
    } else {
        None
    }
}

/// The section-relative coordinates of a world position.
pub open spec fn rel_of(c: WorldCoords) -> SectionRelCoords {
    SectionRelCoords { x: (c.x % 16) as i32, y: (c.y % 16) as i32, z: (c.z % 16) as i32 }
}

/// The biome-grid coordinates of a world position.
pub open spec fn biome_of(c: WorldCoords) -> BiomeCoords {
    BiomeCoords { x: (c.x / 4) as i32, y: (c.y / 4) as i32, z: (c.z / 4) as i32 }
}

pub(crate) proof fn lemma_shr4(x: i32)
    ensures
        (x >> 4i32) as int == x as int / 16,
        (x & 15i32) as int == x as int % 16,
{
    assert(0 <= (x & 15i32) < 16) by (bit_vector);
    assert(-134217728 <= (x >> 4i32) < 134217728) by (bit_vector);
    assert((x >> 4i32) * 16 + (x & 15i32) == x) by (bit_vector);
    vstd::arithmetic::div_mod::lemma_fundamental_div_mod_converse(
        x as int,
        16,
        (x >> 4i32) as int,
        (x & 15i32) as int,
    );
}

pub(crate) proof fn lemma_shr2(x: i32)
    ensures
        (x >> 2i32) as int == x as int / 4,
        (x & 3i32) as int == x as int % 4,
{
    assert(0 <= (x & 3i32) < 4) by (bit_vector);
    assert(-536870912 <= (x >> 2i32) < 536870912) by (bit_vector);
    assert((x >> 2i32) * 4 + (x & 3i32) == x) by (bit_vector);
    vstd::arithmetic::div_mod::lemma_fundamental_div_mod_converse(
        x as int,
        4,
        (x >> 2i32) as int,
        (x & 3i32) as int,
    );
}

impl WorldCoords {
    /// The chunk column that holds this position.
    pub fn to_chunk_coords(&self) -> (r: ChunkCoords)
        ensures
            r.x == self.x / 16,
            r.z == self.z / 16,
    {
        proof {
            lemma_shr4(self.x);
            lemma_shr4(self.z);
        }
        ChunkCoords { x: self.x >> 4i32, z: self.z >> 4i32 }
    }

    /// The chunk section that holds this position.
    pub fn to_section_coords(&self) -> (r: SectionCoords)
        ensures
            r.x == self.x / 16,
            r.y == self.y / 16,
            r.z == self.z / 16,
    {
        proof {
            lemma_shr4(self.x);
            lemma_shr4(self.y);
            lemma_shr4(self.z);
        }
        SectionCoords { x: self.x >> 4i32, y: self.y >> 4i32, z: self.z >> 4i32 }
    }

    /// This position relative to the min corner of its section.
    pub fn to_section_rel_coords(&self) -> (r: SectionRelCoords)
        ensures
            r == rel_of(*self),
            0 <= r.x < 16,
            0 <= r.y < 16,
            0 <= r.z < 16,
    {
        proof {
            lemma_shr4(self.x);
            lemma_shr4(self.y);
            lemma_shr4(self.z);
        }
        SectionRelCoords { x: self.x & 15i32, y: self.y & 15i32, z: self.z & 15i32 }
    }

    /// The biome-grid coordinates of this position.
    pub fn to_biome_coords(&self) -> (r: BiomeCoords)
        ensures
            r == biome_of(*self),
    {
        proof {
            lemma_shr2(self.x);
            lemma_shr2(self.y);
            lemma_shr2(self.z);
        }
        BiomeCoords { x: self.x >> 2i32, y: self.y >> 2i32, z: self.z >> 2i32 }
    }

    /// The Y index of the section that holds this position.
    pub fn section_y_index(&self) -> (r: i32)
        ensures
            r == self.y / 16,
    {
        proof {
            lemma_shr4(self.y);
        }
        self.y >> 4i32
    }

    /// The Y index of the biome cell that holds this position.
    pub fn biome_section_y_index(&self) -> (r: i32)
        ensures
            r == self.y / 4,
    {
        proof {
            lemma_shr2(self.y);
        }
        self.y >> 2i32
    }
}

/// Converts a section's Y index (-4 to 19) to its slot in a column (0 to 23);
/// `None` outside the world.
pub fn section_y_to_section_idx(y: i32) -> (r: Option<usize>)
    ensures
        r == (if MIN_SECTION_Y <= y <= MAX_SECTION_Y {
            Some((y - MIN_SECTION_Y) as usize)
        } else {
            None
        }),
{
    if MIN_SECTION_Y <= y && y <= MAX_SECTION_Y {
        Some((y - MIN_SECTION_Y) as usize)
    } else {
        None
    }
}

/// Converts a slot of a column back to the section's Y index.
pub fn section_idx_to_section_y(idx: usize) -> (r: i32)
    requires
        idx <= i32::MAX,
    ensures
        r == idx + MIN_SECTION_Y,
{
    idx as i32 + MIN_SECTION_Y
}

/// Flat index (0 to 4095) of a block from coordinates inside its section.
pub fn get_section_block_index(coords: SectionRelCoords) -> (r: usize)
    requires
        0 <= coords.x < 16,
        0 <= coords.y < 16,
        0 <= coords.z < 16,
    ensures
        r == block_index(coords.x as int, coords.y as int, coords.z as int),
        r < SECTION_VOLUME,
{
    (coords.y as usize) * 256 + (coords.z as usize) * 16 + coords.x as usize
}

/// Flat index (0 to 63) of a biome entry from biome-grid coordinates.
pub fn get_biome_index(coords: BiomeCoords) -> (r: usize)
    ensures
        r == biome_index(coords.x as int, coords.y as int, coords.z as int),
        r < BIOME_SECTION_VOLUME,
{
    proof {
        lemma_shr2(coords.x);
        lemma_shr2(coords.y);
        lemma_shr2(coords.z);
    }
    let rel_x = (coords.x & 3i32) as usize;
    let rel_y = (coords.y & 3i32) as usize;
    let rel_z = (coords.z & 3i32) as usize;
    rel_y * 16 + rel_z * 4 + rel_x
}

/// The section-relative coordinates of any position lie inside the section.
pub proof fn lemma_rel_in_range(c: WorldCoords)
    ensures
        0 <= rel_of(c).x < 16,
        0 <= rel_of(c).y < 16,
        0 <= rel_of(c).z < 16,
        rel_of(c).x == c.x % 16,
        rel_of(c).y == c.y % 16,
        rel_of(c).z == c.z % 16,
{
    lemma_shr4(c.x);
    lemma_shr4(c.y);
    lemma_shr4(c.z);
}

/// The biome-grid coordinates of any position are its coordinates divided by 4.
pub proof fn lemma_biome_in_range(c: WorldCoords)
    ensures
        biome_of(c).x == c.x / 4,
        biome_of(c).y == c.y / 4,
        biome_of(c).z == c.z / 4,
{
    lemma_shr2(c.x);
    lemma_shr2(c.y);
    lemma_shr2(c.z);
}

} // verus!
