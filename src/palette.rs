//! Paletted storage of a fixed number of global IDs, in one of three
//! representations that grow as the set of distinct values grows.
use vstd::prelude::*;
use vstd::arithmetic::power2::{
    lemma2_to64, lemma2_to64_rest, lemma_pow2_pos, lemma_pow2_strictly_increases, lemma_pow2_unfold,
    pow2,
};
use vstd::bits::lemma_u64_shl_is_mul;

pub use crate::bit_array::BitArray;
pub use crate::parsing::{read_long_array, read_varint};

verus! {

/// Number of binary digits of `n` (0 for 0).
pub open spec fn bit_length(n: nat) -> nat
    decreases n,
{
    if n == 0 {
        0
    } else {
        1 + bit_length(n / 2)
    }
}

/// Bits needed to store `n`, and at least one.
pub open spec fn needed_bits_of(n: nat) -> nat {
    if n == 0 {
        1
    } else {
        bit_length(n)
    }
}

proof fn lemma_bit_length_bounds(n: nat)
    ensures
        n < pow2(bit_length(n)),
        n > 0 ==> pow2((bit_length(n) - 1) as nat) <= n,
        bit_length(n) <= n,
    decreases n,
{
    lemma2_to64();
    if n > 0 {
        lemma_bit_length_bounds(n / 2);
        lemma_pow2_unfold(bit_length(n));
        if n / 2 > 0 {
            lemma_pow2_unfold(bit_length(n / 2));
        }
    }
}

/// `n` fits in `b >= 1` bits exactly when it needs at most `b` bits.
pub proof fn lemma_needed_bits_fit(n: nat, b: nat)
    requires
        b >= 1,
    ensures
        needed_bits_of(n) <= b <==> n < pow2(b),
{
    lemma_bit_length_bounds(n);
    lemma_pow2_pos(b);
    if n > 0 {
        if bit_length(n) < b {
            lemma_pow2_strictly_increases(bit_length(n), b);
        }
        if bit_length(n) > b {
            if (bit_length(n) - 1) as nat > b {
                lemma_pow2_strictly_increases(b, (bit_length(n) - 1) as nat);
            }
        }
    }
}

/// Bits needed to store `value`: 1 for 0, else the position of its highest
/// set bit plus one.
pub fn needed_bits(value: usize) -> (r: usize)
    ensures
        r == needed_bits_of(value as nat),
        1 <= r <= 64,
{
    let mut v: usize = value;
    let mut count: usize = 0;
    proof {
        lemma_bit_length_bounds(value as nat);
    }
    while v > 0
        invariant
            count + bit_length(v as nat) == bit_length(value as nat),
            bit_length(value as nat) <= value,
        decreases v,
    {
        v = v / 2;
        count = count + 1;
    }
    proof {
        lemma2_to64();
        lemma2_to64_rest();
        lemma_needed_bits_fit(value as nat, 64);
    }
    if count == 0 {
        1
    } else {
        count
    }
}

/// `v` fits in `bits` bits.
pub fn fits(v: u32, bits: usize) -> (r: bool)
    ensures
        r == ((v as nat) < pow2(bits as nat)),
{
    proof {
        lemma2_to64();
    }
    if bits >= 32 {
        proof {
            if bits > 32 {
                lemma_pow2_strictly_increases(32, bits as nat);
            }
        }
        true
    } else {
        proof {
            lemma_u64_shl_is_mul(1, bits as u64);
        }
        (v as u64) < (1u64 << (bits as u64))
    }
}

/// Width of a direct block-state container.
pub const GLOBAL_BITS_PER_BLOCK: usize = 15;

/// Widest indirect block-state container.
pub const MAX_BITS_PER_BLOCK: usize = 8;

/// Narrowest indirect block-state container on the wire.
pub const MIN_BITS_PER_BLOCK: usize = 4;

/// Width of a direct biome container.
pub const GLOBAL_BITS_PER_BIOME: usize = 6;

/// Widest indirect biome container.
pub const MAX_BITS_PER_BIOME: usize = 3;

/// Narrowest indirect biome container on the wire.
pub const MIN_BITS_PER_BIOME: usize = 1;

/// Width of the index array that a single-value container gets on its
/// first promotion: the narrowest indirect width of its type. The two types
/// are told apart by their widest indirect width: biome containers (at most
/// 3 bits) start at 1 bit, block-state containers at 4.
pub open spec fn promotion_bits(max_indirect_bits: nat) -> nat {
    if max_indirect_bits <= MAX_BITS_PER_BIOME {
        MIN_BITS_PER_BIOME as nat
    } else {
        MIN_BITS_PER_BLOCK as nat
    }
}

/// Position of the first `v` in `s` at or after `i`; `s.len()` if there is none.
pub open spec fn first_pos_from(s: Seq<u32>, v: u32, i: int) -> int
    decreases s.len() - i,
{
    if i < 0 || i >= s.len() {
        s.len() as int
    } else if s[i] == v {
        i
    } else {
        first_pos_from(s, v, i + 1)
    }
}

/// Position of the first `v` in `s`; `s.len()` if there is none.
pub open spec fn first_pos(s: Seq<u32>, v: u32) -> int {
    first_pos_from(s, v, 0)
}

proof fn lemma_first_pos_from(s: Seq<u32>, v: u32, i: int)
    requires
        0 <= i <= s.len(),
    ensures
        i <= first_pos_from(s, v, i) <= s.len(),
        first_pos_from(s, v, i) < s.len() ==> s[first_pos_from(s, v, i)] == v,
        forall|q: int| i <= q < first_pos_from(s, v, i) ==> s[q] != v,
    decreases s.len() - i,
{
    if i < s.len() && s[i] != v {
        lemma_first_pos_from(s, v, i + 1);
    }
}

/// The first position of `v` in `s` holds `v`; no earlier one does; it is
/// `s.len()` exactly when `v` is absent.
pub proof fn lemma_first_pos(s: Seq<u32>, v: u32)
    ensures
        0 <= first_pos(s, v) <= s.len(),
        first_pos(s, v) < s.len() <==> s.contains(v),
        first_pos(s, v) < s.len() ==> s[first_pos(s, v)] == v,
        forall|q: int| 0 <= q < first_pos(s, v) ==> s[q] != v,
{
    lemma_first_pos_from(s, v, 0);
    if s.contains(v) {
        let w = choose|w: int| 0 <= w < s.len() && s[w] == v;
        assert(!(w < first_pos(s, v)));
    }
}

/// Global IDs of a fixed number of slots.
#[derive(Debug, Clone)]
pub enum PaletteContainer {
    /// Every slot holds this value.
    Single(u32),
    /// Slots hold indices into a local palette of global IDs.
    Indirect { palette: Vec<u32>, data: BitArray },
    /// Slots hold global IDs.
    Direct(BitArray),
}

impl PaletteContainer {
    /// The packed arrays are well formed, indirect indices are at most 32
    /// bits wide, and every stored index points into the palette.
    pub open spec fn wf(&self) -> bool {
        match self {
            PaletteContainer::Single(_) => true,
            PaletteContainer::Indirect { palette, data } => {
                &&& data.wf()
                &&& data.bits() <= 32
                &&& forall|p: int|
                    0 <= p < data.capacity() ==> (#[trigger] data@[p] as int) < palette@.len()
            },
            PaletteContainer::Direct(data) => data.wf(),
        }
    }

    /// The container has `capacity` slots (a single value has any number).
    pub open spec fn sized(&self, capacity: nat) -> bool {
        match self {
            PaletteContainer::Single(_) => true,
            PaletteContainer::Indirect { data, .. } => data.capacity() == capacity,
            PaletteContainer::Direct(data) => data.capacity() == capacity,
        }
    }

    /// `i` names a slot of the container.
    pub open spec fn admits(&self, i: int) -> bool {
        match self {
            PaletteContainer::Single(_) => true,
            PaletteContainer::Indirect { data, .. } => 0 <= i < data.capacity(),
            PaletteContainer::Direct(data) => 0 <= i < data.capacity(),
        }
    }

    /// The global ID that slot `i` reads as.
    pub open spec fn value_at(&self, i: int) -> u32 {
        match self {
            PaletteContainer::Single(v) => *v,
            PaletteContainer::Indirect { palette, data } => {
                if (data@[i] as int) < palette@.len() {
                    palette@[data@[i] as int]
                } else {
                    0
                }
            },
            PaletteContainer::Direct(data) => data@[i] as u32,
        }
    }

    /// The local palette (empty unless indirect).
    pub open spec fn palette_view(&self) -> Seq<u32> {
        match self {
            PaletteContainer::Indirect { palette, .. } => palette@,
            _ => Seq::empty(),
        }
    }

    /// Bits per slot (0 for a single value).
    pub open spec fn width(&self) -> nat {
        match self {
            PaletteContainer::Single(_) => 0,
            PaletteContainer::Indirect { data, .. } => data.bits(),
            PaletteContainer::Direct(data) => data.bits(),
        }
    }

    /// An indirect palette holds each ID once, and its indices are wide
    /// enough for its last position.
    pub open spec fn palette_ok(&self) -> bool {
        match self {
            PaletteContainer::Indirect { palette, data } => {
                &&& palette@.no_duplicates()
                &&& palette@.len() >= 1 ==> data.bits() >= needed_bits_of(
                    (palette@.len() - 1) as nat,
                )
            },
            _ => true,
        }
    }

    /// Writing `new_id` into this indirect container promotes it to a
    /// direct one: `new_id` needs a palette position wider than both the
    /// current width and `max_indirect_bits`.
    pub open spec fn promotes(&self, new_id: u32, max_indirect_bits: nat) -> bool {
        match self {
            PaletteContainer::Indirect { palette, data } => {
                let req = needed_bits_of(first_pos(palette@, new_id) as nat);
                req > data.bits() && req > max_indirect_bits
            },
            _ => false,
        }
    }

    /// Writing `new_id` cannot need a value wider than the array that will
    /// hold it: the direct array, or, when an indirect container is promoted,
    /// the `global_bits` wide one that then holds every slot.
    pub open spec fn accepts(
        &self,
        new_id: u32,
        global_bits: nat,
        max_indirect_bits: nat,
        capacity: nat,
    ) -> bool {
        match self {
            PaletteContainer::Single(_) => true,
            PaletteContainer::Indirect { .. } => self.promotes(new_id, max_indirect_bits) ==> {
                &&& global_bits <= 64
                &&& (new_id as nat) < pow2(global_bits)
                &&& forall|p: int|
                    0 <= p < capacity ==> (#[trigger] self.value_at(p) as nat) < pow2(global_bits)
            },
            PaletteContainer::Direct(data) => (new_id as nat) < pow2(data.bits()),
        }
    }

    /// The representation that `set` leaves, and whether it changed kind.
    pub open spec fn set_outcome(
        before: PaletteContainer,
        after: PaletteContainer,
        new_id: u32,
        global_bits: nat,
        max_indirect_bits: nat,
        changed: bool,
    ) -> bool {
        match before {
            PaletteContainer::Single(v) => if v == new_id {
                after == before && !changed
            } else {
                &&& changed
                &&& after is Indirect
                &&& after.palette_view() == seq![v, new_id]
                &&& after.width() == promotion_bits(max_indirect_bits)
            },
            PaletteContainer::Indirect { palette, data } => {
                let k = first_pos(palette@, new_id);
                let req = needed_bits_of(k as nat);
                let grown = if k < palette@.len() {
                    palette@
                } else {
                    palette@.push(new_id)
                };
                if req <= data.bits() {
                    &&& !changed
                    &&& after is Indirect
                    &&& after.palette_view() == grown
                    &&& after.width() == data.bits()
                } else if req <= max_indirect_bits {
                    &&& !changed
                    &&& after is Indirect
                    &&& after.palette_view() == grown
                    &&& after.width() == req
                } else {
                    &&& changed
                    &&& after is Direct
                    &&& after.width() == global_bits
                }
            },
            PaletteContainer::Direct(data) => {
                &&& !changed
                &&& after is Direct
                &&& after.width() == data.bits()
            },
        }
    }

    /// A container whose every slot holds `value`.
    pub fn new_single(value: u32) -> (r: Self)
        ensures
            r == PaletteContainer::Single(value),
    {
        PaletteContainer::Single(value)
    }

    /// A container of indices into `palette`.
    pub fn new_indirect(palette: Vec<u32>, data: BitArray) -> (r: Self)
        ensures
            r == (PaletteContainer::Indirect { palette, data }),
    {
        PaletteContainer::Indirect { palette, data }
    }

    /// A container of global IDs.
    pub fn new_direct(data: BitArray) -> (r: Self)
        ensures
            r == PaletteContainer::Direct(data),
    {
        PaletteContainer::Direct(data)
    }

    /// The global ID at slot `index`.
    pub fn get(&self, index: usize) -> (r: u32)
        requires
            self.wf(),
            self.admits(index as int),
        ensures
            r == self.value_at(index as int),
    {
        match self {
            PaletteContainer::Single(value) => *value,
            PaletteContainer::Indirect { palette, data } => {
                proof {
                    data.lemma_shape();
                    lemma2_to64();
                }
                let palette_index = data.get(index) as usize;
                if palette_index >= palette.len() {
                    0
                } else {
                    palette[palette_index]
                }
            },
            PaletteContainer::Direct(data) => data.get(index),
        }
    }
    /// Position of the first `id` in `palette`, or its length.
    fn position(palette: &Vec<u32>, id: u32) -> (r: usize)
        ensures
            r == first_pos(palette@, id),
    {
        let mut i: usize = 0;
        while i < palette.len()
            invariant
                i <= palette@.len(),
                first_pos_from(palette@, id, i as int) == first_pos(palette@, id),
            decreases palette@.len() - i,
        {
            if palette[i] == id {
                return i;
            }
            i = i + 1;
        }
        i
    }

    /// A copy of `data` at the larger width `bits`.
    fn widen(data: &BitArray, bits: usize) -> (r: BitArray)
        requires
            data.wf(),
            data.bits() < bits <= 32,
        ensures
            r.wf(),
            r.bits() == bits,
            r.capacity() == data.capacity(),
            r@ == data@,
    {
        let cap = data.get_capacity();
        let mut out = BitArray::new(bits, cap);
        proof {
            data.lemma_shape();
            lemma_pow2_strictly_increases(data.bits(), bits as nat);
            lemma2_to64();
        }
        let mut p: usize = 0;
        while p < cap
            invariant
                data.wf(),
                cap == data.capacity(),
                data.bits() < bits <= 32,
                pow2(data.bits()) < pow2(bits as nat),
                pow2(32) == 0x100000000,
                forall|i: int| 0 <= i < cap ==> (#[trigger] data@[i] as nat) < pow2(data.bits()),
                out.wf(),
                out.bits() == bits,
                out.capacity() == cap,
                p <= cap,
                forall|q: int| 0 <= q < p ==> #[trigger] out@[q] == data@[q],
            decreases cap - p,
        {
            let v = data.get(p);
            proof {
                if bits < 32 {
                    lemma_pow2_strictly_increases(bits as nat, 32);
                }
            }
            out.set(p, v);
            p = p + 1;
        }
        proof {
            assert(out@ =~= data@);
        }
        out
    }

    /// The direct array that holds, slot by slot, the IDs that `palette`
    /// and `data` encode.
    fn to_direct(palette: &Vec<u32>, data: &BitArray, global_bits: usize) -> (r: BitArray)
        requires
            data.wf(),
            data.bits() <= 32,
            global_bits <= 64,
            forall|p: int| 0 <= p < data.capacity() ==> (#[trigger] data@[p] as int) < palette@.len(),
            forall|p: int|
                0 <= p < data.capacity() ==> (palette@[#[trigger] data@[p] as int] as nat) < pow2(
                    global_bits as nat,
                ),
        ensures
            r.wf(),
            r.bits() == global_bits,
            r.capacity() == data.capacity(),
            forall|p: int| 0 <= p < data.capacity() ==> #[trigger] r@[p] == palette@[data@[p] as int] as u64,
    {
        let cap = data.get_capacity();
        let mut out = BitArray::new(global_bits, cap);
        proof {
            data.lemma_shape();
            lemma2_to64();
        }
        let mut p: usize = 0;
        while p < cap
            invariant
                data.wf(),
                cap == data.capacity(),
                data.bits() <= 32,
                pow2(32) == 0x100000000,
                forall|i: int| 0 <= i < cap ==> (#[trigger] data@[i] as nat) < pow2(data.bits()),
                forall|i: int| 0 <= i < cap ==> (#[trigger] data@[i] as int) < palette@.len(),
                forall|i: int|
                    0 <= i < cap ==> (palette@[#[trigger] data@[i] as int] as nat) < pow2(
                        global_bits as nat,
                    ),
                out.wf(),
                out.bits() == global_bits,
                out.capacity() == cap,
                p <= cap,
                forall|q: int| 0 <= q < p ==> #[trigger] out@[q] == palette@[data@[q] as int] as u64,
            decreases cap - p,
        {
            proof {
                if data.bits() < 32 {
                    lemma_pow2_strictly_increases(data.bits(), 32);
                }
            }
            let j = data.get(p) as usize;
            let id = palette[j];
            out.set(p, id);
            p = p + 1;
        }
        out
    }

    /// Writes `new_id` at slot `index`, changing representation when the
    /// current one cannot hold it; returns whether the kind changed.
    pub fn set(
        &mut self,
        index: usize,
        new_id: u32,
        global_bits: usize,
        max_indirect_bits: usize,
        capacity: usize,
    ) -> (changed: bool)
        requires
            old(self).wf(),
            old(self).sized(capacity as nat),
            index < capacity,
            1 <= max_indirect_bits <= 32,
            old(self).accepts(new_id, global_bits as nat, max_indirect_bits as nat, capacity as nat),
        ensures
            final(self).wf(),
            final(self).sized(capacity as nat),
            final(self).value_at(index as int) == new_id,
            forall|j: int|
                0 <= j < capacity && j != index ==> #[trigger] final(self).value_at(j) == old(
                    self,
                ).value_at(j),
            old(self).palette_ok() ==> final(self).palette_ok(),
            *final(self) is Indirect && (*old(self) is Single || old(self).width()
                <= max_indirect_bits) ==> final(self).width() <= max_indirect_bits,
            Self::set_outcome(
                *old(self),
                *final(self),
                new_id,
                global_bits as nat,
                max_indirect_bits as nat,
                changed,
            ),
    {
        let mut cur = PaletteContainer::Single(0);
        core::mem::swap(self, &mut cur);
        proof {
            lemma2_to64();
        }
        match cur {
            PaletteContainer::Single(v) => {
                if v == new_id {
                    *self = PaletteContainer::Single(v);
                    return false;
                }
                let bits = if max_indirect_bits <= MAX_BITS_PER_BIOME {
                    MIN_BITS_PER_BIOME
                } else {
                    MIN_BITS_PER_BLOCK
                };
                let mut data = BitArray::new(bits, capacity);
                data.set(index, 1);
                let palette = vec![v, new_id];
                proof {
                    assert(palette@ =~= seq![v, new_id]);
                    assert(bit_length(0) == 0);
                    assert(bit_length(1) == 1);
                }
                *self = PaletteContainer::Indirect { palette, data };
                true
            },
            PaletteContainer::Direct(mut data) => {
                data.set(index, new_id);
                *self = PaletteContainer::Direct(data);
                false
            },
            PaletteContainer::Indirect { mut palette, data } => {
                let ghost before = PaletteContainer::Indirect { palette, data };
                let k = Self::position(&palette, new_id);
                let req = needed_bits(k);
                proof {
                    lemma_first_pos(palette@, new_id);
                    if data.bits() >= 1 {
                        lemma_needed_bits_fit(k as nat, data.bits());
                    }
                    lemma_needed_bits_fit(k as nat, req as nat);
                    data.lemma_shape();
                }
                if req > data.get_bits_per_value() && req > max_indirect_bits {
                    proof {
                        assert forall|p: int| 0 <= p < data.capacity() implies (palette@[
                            #[trigger] data@[p] as int] as nat) < pow2(global_bits as nat) by {
                            assert(before.value_at(p) == palette@[data@[p] as int]);
                        }
                    }
                    let mut direct = Self::to_direct(&palette, &data, global_bits);
                    direct.set(index, new_id);
                    *self = PaletteContainer::Direct(direct);
                    return true;
                }
                if k == palette.len() {
                    palette.push(new_id);
                }
                proof {
                    lemma_pow2_strictly_increases(req as nat, 33);
                }
                if req <= data.get_bits_per_value() {
                    let mut data = data;
                    data.set(index, k as u32);
                    *self = PaletteContainer::Indirect { palette, data };
                } else {
                    let mut wide = Self::widen(&data, req);
                    wide.set(index, k as u32);
                    *self = PaletteContainer::Indirect { palette, data: wide };
                }
                false
            },
        }
    }

    /// Whether `set` may be called with `new_id`, `global_bits` and
    /// `max_indirect_bits` (see `accepts`).
    pub fn accepts_value(
        &self,
        new_id: u32,
        global_bits: usize,
        max_indirect_bits: usize,
        capacity: usize,
    ) -> (r: bool)
        requires
            self.wf(),
            self.sized(capacity as nat),
        ensures
            r == self.accepts(new_id, global_bits as nat, max_indirect_bits as nat, capacity as nat),
    {
        match self {
            PaletteContainer::Single(_) => true,
            PaletteContainer::Indirect { palette, data } => {
                let k = Self::position(palette, new_id);
                let req = needed_bits(k);
                if req <= data.get_bits_per_value() || req <= max_indirect_bits {
                    return true;
                }
                assert(self.promotes(new_id, max_indirect_bits as nat));
                if global_bits > 64 || !fits(new_id, global_bits) {
                    return false;
                }
                let mut p: usize = 0;
                while p < capacity
                    invariant
                        self.wf(),
                        self.sized(capacity as nat),
                        self is Indirect,
                        self.promotes(new_id, max_indirect_bits as nat),
                        p <= capacity,
                        forall|q: int| 0 <= q < p ==> (#[trigger] self.value_at(q) as nat) < pow2(global_bits as nat),
                    decreases capacity - p,
                {
                    if !fits(self.get(p), global_bits) {
                        return false;
                    }
                    p = p + 1;
                }
                true
            },
            PaletteContainer::Direct(data) => fits(new_id, data.get_bits_per_value()),
        }
    }
}

} // verus!
