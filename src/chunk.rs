//! Chunk sections (16x16x16 blocks with a 4x4x4 biome grid) and the columns
//! that stack them over the height of the world.
use vstd::prelude::*;

use crate::coords::{
    biome_index, biome_of, block_index, get_biome_index, get_section_block_index, lemma_shr4,
    rel_of, section_slot, section_y_to_section_idx, BiomeCoords, SectionRelCoords, WorldCoords,
    BIOME_SECTION_VOLUME, MAX_SECTION_Y, MIN_SECTION_Y, SECTION_COUNT, SECTION_VOLUME,
};
use crate::palette::{
    PaletteContainer, GLOBAL_BITS_PER_BIOME, MAX_BITS_PER_BIOME, MAX_BITS_PER_BLOCK,
};

verus! {

/// Number of slots among the first `n` of `c` that hold a non-zero ID.
pub open spec fn count_nonzero(c: PaletteContainer, n: nat) -> nat
    decreases n,
{
    if n == 0 {
        0
    } else {
        count_nonzero(c, (n - 1) as nat) + if c.value_at(n - 1) != 0 {
            1nat
        } else {
            0nat
        }
    }
}

/// `x` wrapped into the range of `i16`, for `x` at most one step outside it.
pub open spec fn wrap_i16(x: int) -> int {
    if x > i16::MAX {
        x - 0x10000
    } else if x < i16::MIN {
        x + 0x10000
    } else {
        x
    }
}

/// How the solid count moves when a slot goes from `old_id` to `new_id`.
pub open spec fn solid_delta(old_id: u32, new_id: u32) -> int {
    if old_id != 0 && new_id == 0 {
        -1
    } else if old_id == 0 && new_id != 0 {
        1
    } else {
        0
    }
}

proof fn lemma_count_bound(c: PaletteContainer, n: nat)
    ensures
        count_nonzero(c, n) <= n,
    decreases n,
{
    if n > 0 {
        lemma_count_bound(c, (n - 1) as nat);
    }
}

proof fn lemma_count_update(a: PaletteContainer, b: PaletteContainer, i: int, n: nat)
    requires
        0 <= i < n,
        forall|j: int| 0 <= j < n && j != i ==> #[trigger] b.value_at(j) == a.value_at(j),
    ensures
        count_nonzero(b, n) as int == count_nonzero(a, n) + solid_delta(
            a.value_at(i),
            b.value_at(i),
        ),
    decreases n,
{
    if n - 1 > i {
        lemma_count_update(a, b, i, (n - 1) as nat);
    } else {
        lemma_count_same(a, b, (n - 1) as nat);
    }
}

proof fn lemma_count_same_single(v: u32, n: nat)
    ensures
        v == 0 ==> count_nonzero(PaletteContainer::Single(v), n) == 0,
    decreases n,
{
    if n > 0 {
        lemma_count_same_single(v, (n - 1) as nat);
    }
}

proof fn lemma_count_same(a: PaletteContainer, b: PaletteContainer, n: nat)
    requires
        forall|j: int| 0 <= j < n ==> #[trigger] b.value_at(j) == a.value_at(j),
    ensures
        count_nonzero(b, n) == count_nonzero(a, n),
    decreases n,
{
    if n > 0 {
        lemma_count_same(a, b, (n - 1) as nat);
    }
}

/// A 16x16x16 block section with its biome grid and its count of non-air
/// blocks.
#[derive(Debug, Clone)]
pub struct ChunkSection {
    block_states: PaletteContainer,
    biomes: PaletteContainer,
    solid_block_count: i16,
}

impl ChunkSection {
    /// The block-state container.
    pub closed spec fn blocks(&self) -> PaletteContainer {
        self.block_states
    }

    /// The biome container.
    pub closed spec fn biome_grid(&self) -> PaletteContainer {
        self.biomes
    }

    /// The cached count of non-air blocks.
    pub closed spec fn solid(&self) -> i16 {
        self.solid_block_count
    }

    /// Both containers are well formed and sized for a section.
    pub open spec fn wf(&self) -> bool {
        &&& self.blocks().wf()
        &&& self.blocks().sized(SECTION_VOLUME as nat)
        &&& self.biome_grid().wf()
        &&& self.biome_grid().sized(BIOME_SECTION_VOLUME as nat)
    }

    /// The cached count equals the number of slots holding a non-zero ID.
    pub open spec fn count_ok(&self) -> bool {
        self.solid() as int == count_nonzero(self.blocks(), SECTION_VOLUME as nat)
    }

    /// The block state at section-relative `c`.
    pub open spec fn state_at(&self, c: SectionRelCoords) -> u32 {
        self.blocks().value_at(block_index(c.x as int, c.y as int, c.z as int))
    }

    /// A section whose blocks are all air and whose count is 0 has a
    /// consistent count; `set_block_state_id` keeps it consistent.
    pub proof fn lemma_air_section_counts(&self)
        requires
            self.blocks() == PaletteContainer::Single(0),
            self.solid() == 0,
        ensures
            self.count_ok(),
    {
        lemma_count_same_single(0, SECTION_VOLUME as nat);
    }

    /// A section of the given containers and count.
    pub fn new(block_states: PaletteContainer, biomes: PaletteContainer, solid_block_count: i16) -> (r: Self)
        ensures
            r.blocks() == block_states,
            r.biome_grid() == biomes,
            r.solid() == solid_block_count,
    {
        ChunkSection { block_states, biomes, solid_block_count }
    }

    /// The block-state container.
    pub fn block_states(&self) -> (r: &PaletteContainer)
        ensures
            *r == self.blocks(),
    {
        &self.block_states
    }

    /// The biome container.
    pub fn biomes(&self) -> (r: &PaletteContainer)
        ensures
            *r == self.biome_grid(),
    {
        &self.biomes
    }

    /// The cached count of non-air blocks.
    pub fn solid_block_count(&self) -> (r: i16)
        ensures
            r == self.solid(),
    {
        self.solid_block_count
    }

    /// The block state at section-relative `coords`.
    pub fn get_block_state_id(&self, coords: SectionRelCoords) -> (r: u32)
        requires
            self.wf(),
            0 <= coords.x < 16,
            0 <= coords.y < 16,
            0 <= coords.z < 16,
        ensures
            r == self.state_at(coords),
    {
        let index = get_section_block_index(coords);
        self.block_states.get(index)
    }

    /// Sets the block state at section-relative `coords`, adjusting the solid
    /// count by the change in air (ID 0).
    pub fn set_block_state_id(
        &mut self,
        coords: SectionRelCoords,
        state_id: u32,
        global_bits_per_block: usize,
    )
        requires
            old(self).wf(),
            0 <= coords.x < 16,
            0 <= coords.y < 16,
            0 <= coords.z < 16,
            old(self).blocks().accepts(
                state_id,
                global_bits_per_block as nat,
                MAX_BITS_PER_BLOCK as nat,
                SECTION_VOLUME as nat,
            ),
        ensures
            final(self).wf(),
            final(self).state_at(coords) == state_id,
            forall|i: int|
                0 <= i < SECTION_VOLUME && i != block_index(coords.x as int, coords.y as int, coords.z as int)
                    ==> #[trigger] final(self).blocks().value_at(i) == old(self).blocks().value_at(i),
            final(self).biome_grid() == old(self).biome_grid(),
            final(self).solid() as int == wrap_i16(
                old(self).solid() + solid_delta(old(self).state_at(coords), state_id),
            ),
            old(self).count_ok() ==> final(self).count_ok(),
            old(self).blocks().palette_ok() ==> final(self).blocks().palette_ok(),
            exists|changed: bool|
                PaletteContainer::set_outcome(
                old(self).blocks(),
                final(self).blocks(),
                state_id,
                global_bits_per_block as nat,
                MAX_BITS_PER_BLOCK as nat,
                changed,
            ),
    {
        let index = get_section_block_index(coords);
        let old_state_id = self.block_states.get(index);
        let old_is_solid = old_state_id != 0;
        let new_is_solid = state_id != 0;
        if old_is_solid && !new_is_solid {
            self.solid_block_count = self.solid_block_count.wrapping_sub(1);
        } else if !old_is_solid && new_is_solid {
            self.solid_block_count = self.solid_block_count.wrapping_add(1);
        }
        let ghost before = self.block_states;
        let changed = self.block_states.set(
            index,
            state_id,
            global_bits_per_block,
            MAX_BITS_PER_BLOCK,
            SECTION_VOLUME,
        );
        proof {
            lemma_count_update(before, self.block_states, index as int, SECTION_VOLUME as nat);
            lemma_count_bound(before, SECTION_VOLUME as nat);
        }
    }

    /// The biome at biome-grid `coords`.
    pub fn get_biome_id(&self, coords: BiomeCoords) -> (r: u32)
        requires
            self.wf(),
        ensures
            r == self.biome_grid().value_at(biome_index(coords.x as int, coords.y as int, coords.z as int)),
    {
        let index = get_biome_index(coords);
        self.biomes.get(index)
    }

    /// Sets the biome at biome-grid `coords`; the solid count is not touched.
    pub fn set_biome_id(&mut self, coords: BiomeCoords, biome_id: u32)
        requires
            old(self).wf(),
            old(self).biome_grid().accepts(
                biome_id,
                GLOBAL_BITS_PER_BIOME as nat,
                MAX_BITS_PER_BIOME as nat,
                BIOME_SECTION_VOLUME as nat,
            ),
        ensures
            final(self).wf(),
            final(self).biome_grid().value_at(biome_index(coords.x as int, coords.y as int, coords.z as int)) == biome_id,
            forall|i: int|
                0 <= i < BIOME_SECTION_VOLUME && i != biome_index(coords.x as int, coords.y as int, coords.z as int)
                    ==> #[trigger] final(self).biome_grid().value_at(i) == old(self).biome_grid().value_at(i),
            final(self).blocks() == old(self).blocks(),
            final(self).solid() == old(self).solid(),
    {
        let index = get_biome_index(coords);
        self.biomes.set(index, biome_id, GLOBAL_BITS_PER_BIOME, MAX_BITS_PER_BIOME, BIOME_SECTION_VOLUME);
    }
}

/// Byte `k` (0 to 3, least significant first) of `v`.
pub open spec fn le_byte(v: u32, k: int) -> u8 {
    if k == 0 {
        (v % 256) as u8
    } else if k == 1 {
        ((v / 256) % 256) as u8
    } else if k == 2 {
        ((v / 65536) % 256) as u8
    } else {
        (v / 16777216) as u8
    }
}

/// The solid count of a section slot; 0 for a missing section, which a
/// write creates with no solid blocks.
pub open spec fn solid_before(slot: Option<ChunkSection>) -> int {
    match slot {
        Some(s) => s.solid() as int,
        None => 0,
    }
}

/// `a` and `b` name the same block of a column: same Y, and the same X and
/// Z inside the column.
pub open spec fn same_block(a: WorldCoords, b: WorldCoords) -> bool {
    &&& a.y == b.y
    &&& a.x % 16 == b.x % 16
    &&& a.z % 16 == b.z % 16
}

proof fn lemma_block_index_distinct(a: WorldCoords, b: WorldCoords)
    requires
        a.y / 16 == b.y / 16,
        !same_block(a, b),
    ensures
        block_index(rel_of(a).x as int, rel_of(a).y as int, rel_of(a).z as int) != block_index(
            rel_of(b).x as int,
            rel_of(b).y as int,
            rel_of(b).z as int,
        ),
{
    vstd::arithmetic::div_mod::lemma_fundamental_div_mod(a.y as int, 16);
    vstd::arithmetic::div_mod::lemma_fundamental_div_mod(b.y as int, 16);
    vstd::arithmetic::div_mod::lemma_mod_bound(a.x as int, 16);
    vstd::arithmetic::div_mod::lemma_mod_bound(b.x as int, 16);
    vstd::arithmetic::div_mod::lemma_mod_bound(a.y as int, 16);
    vstd::arithmetic::div_mod::lemma_mod_bound(b.y as int, 16);
    vstd::arithmetic::div_mod::lemma_mod_bound(a.z as int, 16);
    vstd::arithmetic::div_mod::lemma_mod_bound(b.z as int, 16);
}

impl ChunkSection {
    /// The block states as little-endian `u32`s, 4096 of them in Y, Z, X order.
    pub fn export_states(&self) -> (r: Vec<u8>)
        requires
            self.wf(),
        ensures
            r@.len() == 4 * SECTION_VOLUME,
            forall|i: int, k: int|
                0 <= i < SECTION_VOLUME && 0 <= k < 4 ==> #[trigger] r@[4 * i + k] == le_byte(
                    self.blocks().value_at(i),
                    k,
                ),
    {
        let mut out: Vec<u8> = Vec::new();
        let mut i: usize = 0;
        while i < SECTION_VOLUME
            invariant
                self.wf(),
                i <= SECTION_VOLUME,
                out@.len() == 4 * i,
                forall|j: int, k: int|
                    0 <= j < i && 0 <= k < 4 ==> #[trigger] out@[4 * j + k] == le_byte(
                        self.blocks().value_at(j),
                        k,
                    ),
            decreases SECTION_VOLUME - i,
        {
            let v = self.block_states.get(i);
            out.push((v % 256) as u8);
            out.push(((v / 256) % 256) as u8);
            out.push(((v / 65536) % 256) as u8);
            out.push((v / 16777216) as u8);
            proof {
                assert forall|j: int, k: int|
                    0 <= j < i + 1 && 0 <= k < 4 implies #[trigger] out@[4 * j + k] == le_byte(
                    self.blocks().value_at(j),
                    k,
                ) by {
                    if j == i {
                        assert(4 * j + k == 4 * i + k);
                    } else {
                        assert(4 * j + k < 4 * i);
                    }
                }
            }
            i = i + 1;
        }
        out
    }
}

/// A column of sections over the height of the world, lowest first.
#[derive(Debug, Clone)]
pub struct ChunkColumn {
    pub sections: Vec<Option<ChunkSection>>,
}

impl ChunkColumn {
    /// One slot per section of the world, each present section well formed.
    pub open spec fn wf(&self) -> bool {
        &&& self.sections@.len() == SECTION_COUNT
        &&& forall|i: int|
            0 <= i < SECTION_COUNT ==> (#[trigger] self.sections@[i] matches Some(s) ==> s.wf())
    }

    /// Every present section's solid count matches its blocks.
    pub open spec fn counts_ok(&self) -> bool {
        forall|i: int|
            0 <= i < SECTION_COUNT ==> (#[trigger] self.sections@[i] matches Some(s) ==> s.count_ok())
    }

    /// The section that holds block Y `y`, if it lies in the world and is present.
    pub open spec fn section_at(&self, y: int) -> Option<ChunkSection> {
        match section_slot(y) {
            Some(i) => self.sections@[i],
            None => None,
        }
    }

    /// The block state at `c`: 0 where no section is present.
    pub open spec fn state_at(&self, c: WorldCoords) -> u32 {
        match self.section_at(c.y as int) {
            Some(s) => s.state_at(rel_of(c)),
            None => 0,
        }
    }

    /// The biome at `c`: 0 where no section is present.
    pub open spec fn biome_at(&self, c: WorldCoords) -> u32 {
        match self.section_at(c.y as int) {
            Some(s) => {
                let b = biome_of(c);
                s.biome_grid().value_at(biome_index(b.x as int, b.y as int, b.z as int))
            },
            None => 0,
        }
    }

    /// Writing block state `id` at `c` needs no value wider than its target array.
    pub open spec fn accepts_state(&self, c: WorldCoords, id: u32, global_bits: nat) -> bool {
        match self.section_at(c.y as int) {
            Some(s) => s.blocks().accepts(id, global_bits, MAX_BITS_PER_BLOCK as nat, SECTION_VOLUME as nat),
            None => true,
        }
    }

    /// Writing biome `id` at `c` needs no value wider than its target array.
    pub open spec fn accepts_biome(&self, c: WorldCoords, id: u32) -> bool {
        match self.section_at(c.y as int) {
            Some(s) => s.biome_grid().accepts(
                id,
                GLOBAL_BITS_PER_BIOME as nat,
                MAX_BITS_PER_BIOME as nat,
                BIOME_SECTION_VOLUME as nat,
            ),
            None => true,
        }
    }

    /// A column with no section present.
    pub fn new() -> (r: Self)
        ensures
            r.wf(),
            r.counts_ok(),
            forall|i: int| 0 <= i < SECTION_COUNT ==> #[trigger] r.sections@[i] is None,
    {
        let mut sections: Vec<Option<ChunkSection>> = Vec::new();
        let mut i: usize = 0;
        while i < SECTION_COUNT
            invariant
                i <= SECTION_COUNT,
                sections@.len() == i,
                forall|j: int| 0 <= j < i ==> #[trigger] sections@[j] is None,
            decreases SECTION_COUNT - i,
        {
            sections.push(None);
            i = i + 1;
        }
        ChunkColumn { sections }
    }

    /// Slot of the section that holds block Y `world_y`.
    fn world_y_to_vec_index(world_y: i32) -> (r: Option<usize>)
        ensures
            r matches Some(i) ==> section_slot(world_y as int) == Some(i as int),
            r is None <==> section_slot(world_y as int) is None,
    {
        proof {
            lemma_shr4(world_y);
        }
        section_y_to_section_idx(world_y >> 4i32)
    }

    /// The section with Y index `section_y_index` (-4 to 19), if present.
    pub fn get_section(&self, section_y_index: i32) -> (r: Option<&ChunkSection>)
        requires
            self.wf(),
        ensures
            r is Some <==> MIN_SECTION_Y <= section_y_index <= MAX_SECTION_Y
                && self.sections@[section_y_index - MIN_SECTION_Y] is Some,
            r matches Some(s) ==> Some(*s) == self.sections@[section_y_index - MIN_SECTION_Y],
    {
        match section_y_to_section_idx(section_y_index) {
            Some(idx) => match &self.sections[idx] {
                Some(s) => Some(s),
                None => None,
            },
            None => None,
        }
    }

    /// Mutable access to the section with Y index `section_y_index`, if present.
    pub fn get_section_mut(&mut self, section_y_index: i32) -> (r: Option<&mut ChunkSection>)
        requires
            old(self).wf(),
        ensures
            r is Some <==> MIN_SECTION_Y <= section_y_index <= MAX_SECTION_Y
                && old(self).sections@[section_y_index - MIN_SECTION_Y] is Some,
            r matches Some(s) ==> {
                &&& Some(*s) == old(self).sections@[section_y_index - MIN_SECTION_Y]
                &&& final(self).sections@ == old(self).sections@.update(
                    section_y_index - MIN_SECTION_Y,
                    Some(*final(s)),
                )
            },
            r is None ==> *final(self) == *old(self),
    {
        match section_y_to_section_idx(section_y_index) {
            Some(idx) => {
                if self.sections[idx].is_none() {
                    return None;
                }
                self.sections[idx].as_mut()
            },
            None => None,
        }
    }

    /// Puts `section` at Y index `section_y_index`; outside the world, nothing changes.
    pub fn insert_section(&mut self, section_y_index: i32, section: ChunkSection)
        requires
            old(self).wf(),
            section.wf(),
        ensures
            final(self).wf(),
            MIN_SECTION_Y <= section_y_index <= MAX_SECTION_Y ==> final(self).sections@ == old(
                self,
            ).sections@.update(section_y_index - MIN_SECTION_Y, Some(section)),
            !(MIN_SECTION_Y <= section_y_index <= MAX_SECTION_Y) ==> *final(self) == *old(self),
    {
        if let Some(idx) = section_y_to_section_idx(section_y_index) {
            if idx < self.sections.len() {
                self.sections[idx] = Some(section);
            }
        }
    }

    /// The block state at `coords`; 0 outside the world or where no section is present.
    pub fn get_block_state_id(&self, coords: WorldCoords) -> (r: u32)
        requires
            self.wf(),
        ensures
            r == self.state_at(coords),
    {
        match Self::world_y_to_vec_index(coords.y) {
            Some(idx) => match &self.sections[idx] {
                Some(s) => s.get_block_state_id(coords.to_section_rel_coords()),
                None => 0,
            },
            None => 0,
        }
    }
    /// Sets the block state at `coords`. A missing section is created (all
    /// air, biome 0) when `state_id` is not air; outside the world, or air
    /// into a missing section, nothing changes.
    pub fn set_block_state_id(&mut self, coords: WorldCoords, state_id: u32, global_bits_per_block: usize)
        requires
            old(self).wf(),
            old(self).accepts_state(coords, state_id, global_bits_per_block as nat),
        ensures
            final(self).wf(),
            section_slot(coords.y as int) is Some ==> final(self).state_at(coords) == state_id,
            forall|c: WorldCoords| !same_block(c, coords) ==> #[trigger] final(self).state_at(c) == old(self).state_at(c),
            forall|c: WorldCoords| #[trigger] final(self).biome_at(c) == old(self).biome_at(c),
            old(self).counts_ok() ==> final(self).counts_ok(),
            section_slot(coords.y as int) is None || (old(self).section_at(coords.y as int) is None
                && state_id == 0) ==> *final(self) == *old(self),
            section_slot(coords.y as int) matches Some(i) ==> {
                &&& forall|j: int|
                    0 <= j < SECTION_COUNT && j != i ==> #[trigger] final(self).sections@[j] == old(
                        self,
                    ).sections@[j]
                &&& (old(self).sections@[i] is Some || state_id != 0) ==> final(self).sections@[i] is Some
                &&& final(self).sections@[i] matches Some(s) ==> s.solid() as int == wrap_i16(
                    solid_before(old(self).sections@[i]) + solid_delta(old(self).state_at(coords), state_id),
                )
            },
    {
        let idx = match Self::world_y_to_vec_index(coords.y) {
            Some(idx) => idx,
            None => return,
        };
        let rel = coords.to_section_rel_coords();
        let ghost slot = idx as int;
        if self.sections[idx].is_none() && state_id == 0 {
            return;
        }
        let mut section = match self.sections[idx].take() {
            Some(s) => s,
            None => ChunkSection::new(
                PaletteContainer::new_single(0),
                PaletteContainer::new_single(0),
                0,
            ),
        };
        proof {
            lemma_count_same_single(0, SECTION_VOLUME as nat);
        }
        section.set_block_state_id(rel, state_id, global_bits_per_block);
        self.sections[idx] = Some(section);
        proof {
            assert forall|c: WorldCoords| !same_block(c, coords) implies #[trigger] self.state_at(c)
                == old(self).state_at(c) by {
                lemma_shr4(c.y);
                if section_slot(c.y as int) == Some(slot) {
                    lemma_block_index_distinct(c, coords);
                    crate::coords::lemma_rel_in_range(c);
                }
            }
            assert forall|c: WorldCoords| #[trigger] self.biome_at(c) == old(self).biome_at(c) by {
                if section_slot(c.y as int) == Some(slot) {
                    crate::coords::lemma_biome_in_range(c);
                }
            }
        }
    }

    /// The biome at `coords`; 0 outside the world or where no section is present.
    pub fn get_biome_id(&self, coords: WorldCoords) -> (r: u32)
        requires
            self.wf(),
        ensures
            r == self.biome_at(coords),
    {
        match Self::world_y_to_vec_index(coords.y) {
            Some(idx) => match &self.sections[idx] {
                Some(s) => s.get_biome_id(coords.to_biome_coords()),
                None => 0,
            },
            None => 0,
        }
    }

    /// Sets the biome at `coords`, creating a missing section (all air,
    /// biome 0) when `biome_id` is not 0; block states and solid counts stay.
    pub fn set_biome_id(&mut self, coords: WorldCoords, biome_id: u32)
        requires
            old(self).wf(),
            old(self).accepts_biome(coords, biome_id),
        ensures
            final(self).wf(),
            section_slot(coords.y as int) is Some ==> final(self).biome_at(coords) == biome_id,
            forall|c: WorldCoords| #[trigger] final(self).state_at(c) == old(self).state_at(c),
            old(self).counts_ok() ==> final(self).counts_ok(),
            section_slot(coords.y as int) is None || (old(self).section_at(coords.y as int) is None
                && biome_id == 0) ==> *final(self) == *old(self),
            section_slot(coords.y as int) matches Some(i) ==> {
                &&& forall|j: int|
                    0 <= j < SECTION_COUNT && j != i ==> #[trigger] final(self).sections@[j] == old(
                        self,
                    ).sections@[j]
                &&& (old(self).sections@[i] is Some || biome_id != 0) ==> final(self).sections@[i] is Some
                &&& final(self).sections@[i] matches Some(s) ==> s.solid() as int == solid_before(
                    old(self).sections@[i],
                )
            },
    {
        let idx = match Self::world_y_to_vec_index(coords.y) {
            Some(idx) => idx,
            None => return,
        };
        let ghost slot = idx as int;
        if self.sections[idx].is_none() && biome_id == 0 {
            return;
        }
        let mut section = match self.sections[idx].take() {
            Some(s) => s,
            None => ChunkSection::new(
                PaletteContainer::new_single(0),
                PaletteContainer::new_single(0),
                0,
            ),
        };
        proof {
            lemma_count_same_single(0, SECTION_VOLUME as nat);
        }
        section.set_biome_id(coords.to_biome_coords(), biome_id);
        self.sections[idx] = Some(section);
        proof {
            assert forall|c: WorldCoords| #[trigger] self.state_at(c) == old(self).state_at(c) by {
                if section_slot(c.y as int) == Some(slot) {
                    crate::coords::lemma_rel_in_range(c);
                }
            }
        }
    }

    /// The block type at `coords`; in this store, its state ID.
    pub fn get_block_type_id(&self, coords: WorldCoords) -> (r: u32)
        requires
            self.wf(),
        ensures
            r == self.state_at(coords),
    {
        self.get_block_state_id(coords)
    }

    /// The block light at `coords`; light is not stored, so always full (15).
    pub fn get_block_light(&self, coords: WorldCoords) -> (r: u8)
        ensures
            r == 15,
    {
        15
    }

    /// The sky light at `coords`; light is not stored, so always full (15).
    pub fn get_sky_light(&self, coords: WorldCoords) -> (r: u8)
        ensures
            r == 15,
    {
        15
    }

    /// The block states of the section with Y index `section_y` as
    /// little-endian `u32`s in Y, Z, X order; `None` if it is not present.
    pub fn export_section_states(&self, section_y: i32) -> (r: Option<Vec<u8>>)
        requires
            self.wf(),
        ensures
            r is Some <==> MIN_SECTION_Y <= section_y <= MAX_SECTION_Y
                && self.sections@[section_y - MIN_SECTION_Y] is Some,
            r matches Some(bytes) ==> {
                let s = self.sections@[section_y - MIN_SECTION_Y].unwrap();
                &&& bytes@.len() == 4 * SECTION_VOLUME
                &&& forall|i: int, k: int|
                    0 <= i < SECTION_VOLUME && 0 <= k < 4 ==> #[trigger] bytes@[4 * i + k]
                        == le_byte(s.blocks().value_at(i), k)
            },
    {
        match self.get_section(section_y) {
            Some(s) => Some(s.export_states()),
            None => None,
        }
    }

    /// Whether `set_block_state_id` may be called with these arguments.
    pub fn can_set_block_state_id(&self, coords: WorldCoords, state_id: u32, global_bits_per_block: usize) -> (r: bool)
        requires
            self.wf(),
        ensures
            r == self.accepts_state(coords, state_id, global_bits_per_block as nat),
    {
        match Self::world_y_to_vec_index(coords.y) {
            Some(idx) => match &self.sections[idx] {
                Some(s) => s.block_states.accepts_value(
                    state_id,
                    global_bits_per_block,
                    MAX_BITS_PER_BLOCK,
                    SECTION_VOLUME,
                ),
                None => true,
            },
            None => true,
        }
    }

    /// Whether `set_biome_id` may be called with these arguments.
    pub fn can_set_biome_id(&self, coords: WorldCoords, biome_id: u32) -> (r: bool)
        requires
            self.wf(),
        ensures
            r == self.accepts_biome(coords, biome_id),
    {
        match Self::world_y_to_vec_index(coords.y) {
            Some(idx) => match &self.sections[idx] {
                Some(s) => s.biomes.accepts_value(
                    biome_id,
                    GLOBAL_BITS_PER_BIOME,
                    MAX_BITS_PER_BIOME,
                    BIOME_SECTION_VOLUME,
                ),
                None => true,
            },
            None => true,
        }
    }
}

} // verus!
