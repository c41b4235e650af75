//! Fixed-width unsigned values packed into 64-bit words, least significant
//! bits first, with no value crossing a word boundary.
use vstd::prelude::*;
use vstd::arithmetic::div_mod::{
    lemma_div_is_ordered, lemma_div_multiples_vanish, lemma_fundamental_div_mod,
    lemma_fundamental_div_mod_converse, lemma_mod_bound,
};
use vstd::arithmetic::mul::{lemma_mul_inequality, lemma_mul_is_distributive_add_other_way};
use vstd::arithmetic::power2::{lemma2_to64, lemma2_to64_rest, lemma_pow2_adds, lemma_pow2_pos, pow2};
use vstd::bits::lemma_u64_shr_is_div;

verus! {

/// Bits in a storage word.
pub const BITS_PER_LONG: usize = 64;

/// Mask of the low `bits` bits of a word.
pub open spec fn mask_of(bits: nat) -> u64 {
    if bits == 0 {
        0
    } else {
        u64::MAX >> ((64 - bits) as u64)
    }
}

/// How many values one word holds.
pub open spec fn per_word(bits: nat) -> nat {
    if bits == 0 {
        0
    } else {
        64nat / bits
    }
}

/// The smallest number of `d`-sized groups that cover `c` items.
pub open spec fn ceil_div(c: nat, d: nat) -> nat {
    if d == 0 {
        0
    } else {
        ((c + d - 1) as nat / d) as nat
    }
}

/// Number of words that `capacity` values of `bits` bits take.
pub open spec fn word_count(bits: nat, capacity: nat) -> nat {
    ceil_div(capacity, per_word(bits))
}

/// The value held by slot `i` of the packed `words`.
pub open spec fn slot_of(words: Seq<u64>, bits: nat, i: int) -> u64 {
    if bits == 0 {
        0
    } else {
        (words[i / per_word(bits) as int] >> (((i % per_word(bits) as int) * bits) as u64))
            & mask_of(bits)
    }
}

/// `word` with the `bits` bits at `shift` replaced by `value`; the other
/// bits of the word are kept.
pub open spec fn write_slot(word: u64, bits: nat, shift: nat, value: u64) -> u64 {
    (word & !(mask_of(bits) << (shift as u64))) | (value << (shift as u64))
}

/// A packed array of `capacity` values of `bits_per_value` bits each.
#[derive(Debug, Clone)]
pub struct BitArray {
    data: Vec<u64>,
    bits_per_value: usize,
    values_per_long: usize,
    capacity: usize,
    value_mask: u64,
}

proof fn lemma_mask_pow2(bits: nat)
    requires
        bits <= 64,
    ensures
        mask_of(bits) as nat == pow2(bits) - 1,
{
    lemma2_to64();
    lemma2_to64_rest();
    if bits > 0 {
        let sh = (64 - bits) as nat;
        lemma_u64_shr_is_div(u64::MAX, sh as u64);
        lemma_pow2_adds(bits, sh);
        lemma_pow2_pos(bits);
        lemma_pow2_pos(sh);
        let p = pow2(sh) as int;
        let q = pow2(bits) as int - 1;
        assert(q * p + (p - 1) == u64::MAX as int) by (nonlinear_arith)
            requires
                (q + 1) * p == 0x10000000000000000,
        ;
        lemma_fundamental_div_mod_converse(u64::MAX as int, p, q, p - 1);
    }
}

proof fn lemma_write_same(w: u64, v: u64, s: u64, b: u64)
    by (bit_vector)
    requires
        1 <= b <= 64,
        s + b <= 64,
        v <= u64::MAX >> ((64 - b) as u64),
    ensures
        (((w & !((u64::MAX >> ((64 - b) as u64)) << s)) | (v << s)) >> s) & (u64::MAX >> ((64 - b) as u64)) == v,
{
}

proof fn lemma_write_other(w: u64, v: u64, s: u64, t: u64, b: u64)
    by (bit_vector)
    requires
        1 <= b <= 64,
        s + b <= 64,
        t + b <= 64,
        s + b <= t || t + b <= s,
        v <= u64::MAX >> ((64 - b) as u64),
    ensures
        (((w & !((u64::MAX >> ((64 - b) as u64)) << s)) | (v << s)) >> t) & (u64::MAX >> ((64 - b) as u64)) == (w
            >> t) & (u64::MAX >> ((64 - b) as u64)),
{
}

proof fn lemma_zero_word(s: u64, m: u64)
    by (bit_vector)
    ensures
        (0u64 >> s) & m == 0,
{
}

proof fn lemma_masked_le(x: u64, m: u64)
    by (bit_vector)
    ensures
        x & m <= m,
{
}

/// Where slot `i` lies: its word exists and its bits stay inside that word.
proof fn lemma_slot_place(i: int, capacity: nat, bits: nat)
    requires
        1 <= bits <= 64,
        0 <= i < capacity,
    ensures
        per_word(bits) >= 1,
        per_word(bits) * bits <= 64,
        0 <= i / (per_word(bits) as int),
        i / (per_word(bits) as int) < word_count(bits, capacity),
        0 <= i % per_word(bits) as int,
        (i % per_word(bits) as int) * bits + bits <= 64,
{
    let d = per_word(bits) as int;
    assert(d >= 1) by (nonlinear_arith)
        requires
            d == 64int / (bits as int),
            1 <= bits <= 64,
    ;
    lemma_fundamental_div_mod(64, bits as int);
    lemma_mod_bound(64, bits as int);
    assert(d * bits <= 64);
    lemma_fundamental_div_mod(i, d);
    lemma_mod_bound(i, d);
    let q = i / d;
    let r = i % d;
    assert(q >= 0) by (nonlinear_arith)
        requires
            i == d * q + r,
            0 <= r < d,
            i >= 0,
    ;
    assert(capacity + d - 1 >= (q + 1) * d) by (nonlinear_arith)
        requires
            i == d * q + r,
            0 <= r,
            i < capacity,
    ;
    lemma_div_is_ordered((q + 1) * d, capacity + d - 1, d);
    lemma_div_multiples_vanish(q + 1, d);
    lemma_mul_inequality(r + 1, d, bits as int);
    lemma_mul_is_distributive_add_other_way(bits as int, r, 1);
}

/// Two different slots of one word occupy disjoint bits.
proof fn lemma_slots_disjoint(i: int, j: int, bits: nat)
    requires
        1 <= bits <= 64,
        0 <= i,
        0 <= j,
        i != j,
        i / per_word(bits) as int == j / per_word(bits) as int,
        per_word(bits) >= 1,
    ensures
        (i % per_word(bits) as int) * bits + bits <= (j % per_word(bits) as int) * bits || (j
            % per_word(bits) as int) * bits + bits <= (i % per_word(bits) as int) * bits,
{
    let d = per_word(bits) as int;
    lemma_fundamental_div_mod(i, d);
    lemma_fundamental_div_mod(j, d);
    let a = i % d;
    let c = j % d;
    assert(a != c);
    if a < c {
        lemma_mul_inequality(a + 1, c, bits as int);
        lemma_mul_is_distributive_add_other_way(bits as int, a, 1);
    } else {
        lemma_mul_inequality(c + 1, a, bits as int);
        lemma_mul_is_distributive_add_other_way(bits as int, c, 1);
    }
}

impl BitArray {
    /// Width of each value.
    pub closed spec fn bits(&self) -> nat {
        self.bits_per_value as nat
    }

    /// Number of values held.
    pub closed spec fn capacity(&self) -> nat {
        self.capacity as nat
    }

    /// The packed words.
    pub closed spec fn words(&self) -> Seq<u64> {
        self.data@
    }

    /// The array is well formed: the width is at most 64 bits and the words
    /// are exactly as many as the values need.
    pub closed spec fn wf(&self) -> bool {
        &&& self.bits_per_value <= 64
        &&& self.values_per_long == per_word(self.bits())
        &&& self.value_mask == mask_of(self.bits())
        &&& self.data@.len() == word_count(self.bits(), self.capacity())
    }

    /// The values, slot by slot.
    pub open spec fn view(&self) -> Seq<u64> {
        Seq::new(self.capacity(), |i: int| slot_of(self.words(), self.bits(), i))
    }

    /// Every slot of a well-formed array holds a value below `2^bits`, and
    /// the array has `ceil(capacity / (64 / bits))` words (none for 0 bits).
    pub proof fn lemma_shape(&self)
        requires
            self.wf(),
        ensures
            self.bits() <= 64,
            self@.len() == self.capacity(),
            self.words().len() == word_count(self.bits(), self.capacity()),
            self.bits() > 0 ==> self.words().len() == ceil_div(
                self.capacity(),
                64nat / self.bits(),
            ),
            forall|i: int| 0 <= i < self.capacity() ==> (#[trigger] self@[i] as nat) < pow2(self.bits()),
    {
        lemma_mask_pow2(self.bits());
        assert forall|i: int| 0 <= i < self.capacity() implies (#[trigger] self@[i] as nat) < pow2(
            self.bits(),
        ) by {
            if self.bits() > 0 {
                lemma_slot_place(i, self.capacity(), self.bits());
                lemma_masked_le(
                    self.words()[i / per_word(self.bits()) as int] >> (((i % per_word(
                        self.bits(),
                    ) as int) * self.bits()) as u64),
                    mask_of(self.bits()),
                );
            }
        }
    }

    /// A zero-filled array of `capacity` values of `bits_per_value` bits.
    pub fn new(bits_per_value: usize, capacity: usize) -> (r: Self)
        requires
            bits_per_value <= 64,
        ensures
            r.wf(),
            r.bits() == bits_per_value,
            r.capacity() == capacity,
            r@ == Seq::new(capacity as nat, |i: int| 0u64),
            r.words() == Seq::new(word_count(bits_per_value as nat, capacity as nat), |i: int| 0u64),
    {
        let values_per_long: usize = if bits_per_value == 0 {
            0
        } else {
            BITS_PER_LONG / bits_per_value
        };
        let num_longs: usize = if values_per_long == 0 {
            0
        } else {
            Self::longs_needed(capacity, values_per_long)
        };
        let value_mask: u64 = if bits_per_value == 0 {
            0
        } else {
            u64::MAX >> ((64 - bits_per_value) as u64)
        };
        let data: Vec<u64> = vec![0u64; num_longs];
        let r = BitArray { data, bits_per_value, values_per_long, capacity, value_mask };
        proof {
            assert forall|i: int| 0 <= i < capacity implies #[trigger] r@[i] == 0u64 by {
                if bits_per_value > 0 {
                    lemma_slot_place(i, capacity as nat, bits_per_value as nat);
                    lemma_zero_word(
                        (((i % per_word(r.bits()) as int) * r.bits()) as u64),
                        mask_of(r.bits()),
                    );
                }
            }
            assert(r@ =~= Seq::new(capacity as nat, |i: int| 0u64));
            assert(r.words() =~= Seq::new(word_count(bits_per_value as nat, capacity as nat), |i: int| 0u64));
        }
        r
    }

    /// `ceil(capacity / per)` without overflow.
    fn longs_needed(capacity: usize, per: usize) -> (r: usize)
        requires
            per >= 1,
        ensures
            r == ceil_div(capacity as nat, per as nat),
    {
        let q = capacity / per;
        let rem = capacity % per;
        proof {
            lemma_fundamental_div_mod(capacity as int, per as int);
            lemma_mod_bound(capacity as int, per as int);
            if rem == 0 {
                lemma_fundamental_div_mod_converse(
                    capacity + per - 1,
                    per as int,
                    q as int,
                    per - 1,
                );
            } else {
                assert((q + 1) * per == per * q + per) by (nonlinear_arith);
                assert(q + 1 <= usize::MAX) by (nonlinear_arith)
                    requires
                        capacity == per * q + rem,
                        0 < rem < per,
                        q >= 0,
                        capacity <= usize::MAX,
                ;
                lemma_fundamental_div_mod_converse(
                    capacity + per - 1,
                    per as int,
                    q + 1,
                    rem - 1,
                );
            }
        }
        if rem == 0 {
            q
        } else {
            q + 1
        }
    }

    /// The value at `index`, narrowed to 32 bits.
    pub fn get(&self, index: usize) -> (r: u32)
        requires
            self.wf(),
            index < self.capacity(),
        ensures
            r == self@[index as int] as u32,
    {
        if self.bits_per_value == 0 {
            return 0;
        }
        proof {
            lemma_slot_place(index as int, self.capacity(), self.bits());
        }
        let long_index = index / self.values_per_long;
        let shift = ((index % self.values_per_long) * self.bits_per_value) as u64;
        ((self.data[long_index] >> shift) & self.value_mask) as u32
    }

    /// Stores `value` at `index`, leaving every other slot as it was.
    pub fn set(&mut self, index: usize, value: u32)
        requires
            old(self).wf(),
            index < old(self).capacity(),
            (value as nat) < pow2(old(self).bits()),
        ensures
            final(self).wf(),
            final(self).bits() == old(self).bits(),
            final(self).capacity() == old(self).capacity(),
            final(self)@ == old(self)@.update(index as int, value as u64),
            final(self)@[index as int] == value as u64,
            forall|j: int|
                0 <= j < old(self).capacity() && j != index ==> #[trigger] final(self)@[j] == old(
                    self,
                )@[j],
            old(self).bits() == 0 ==> final(self).words() == old(self).words(),
            old(self).bits() > 0 ==> final(self).words() == old(self).words().update(
                (index as int) / (per_word(old(self).bits()) as int),
                write_slot(
                    old(self).words()[(index as int) / (per_word(old(self).bits()) as int)],
                    old(self).bits(),
                    (((index as int) % (per_word(old(self).bits()) as int)) * old(self).bits()) as nat,
                    value as u64,
                ),
            ),
    {
        if self.bits_per_value == 0 {
            proof {
                lemma2_to64();
                assert(self@ =~= old(self)@.update(index as int, value as u64));
            }
            return;
        }
        let ghost bits = self.bits();
        let ghost d = per_word(bits) as int;
        proof {
            lemma_slot_place(index as int, self.capacity(), bits);
            lemma_mask_pow2(bits);
        }
        let long_index = index / self.values_per_long;
        let shift = ((index % self.values_per_long) * self.bits_per_value) as u64;
        let v = value as u64;
        let old_word = self.data[long_index];
        let new_word = (old_word & !(self.value_mask << shift)) | (v << shift);
        self.data[long_index] = new_word;
        proof {
            let b = bits as u64;
            assert(mask_of(bits) == u64::MAX >> ((64 - b) as u64));
            lemma_write_same(old_word, v, shift, b);
            assert forall|j: int| 0 <= j < self.capacity() && j != index implies #[trigger] self@[j]
                == old(self)@[j] by {
                lemma_slot_place(j, self.capacity(), bits);
                if j / d == (index as int) / d {
                    lemma_slots_disjoint(index as int, j, bits);
                    lemma_write_other(old_word, v, shift, ((j % d) * bits) as u64, b);
                }
            }
            assert(self@ =~= old(self)@.update(index as int, value as u64));
        }
    }
    /// An array over the given words; `None` unless the width is at most 64
    /// bits and the words are exactly `ceil(capacity / (64 / bits))`.
    pub fn from_data(bits_per_value: usize, capacity: usize, data: Vec<u64>) -> (r: Option<Self>)
        ensures
            r.is_some() <==> bits_per_value <= 64 && data@.len() == word_count(
                bits_per_value as nat,
                capacity as nat,
            ),
            r matches Some(b) ==> {
                &&& b.wf()
                &&& b.bits() == bits_per_value
                &&& b.capacity() == capacity
                &&& b.words() == data@
            },
    {
        if bits_per_value > 64 {
            return None;
        }
        let values_per_long: usize = if bits_per_value == 0 {
            0
        } else {
            BITS_PER_LONG / bits_per_value
        };
        let num_longs: usize = if values_per_long == 0 {
            0
        } else {
            Self::longs_needed(capacity, values_per_long)
        };
        if data.len() != num_longs {
            return None;
        }
        let value_mask: u64 = if bits_per_value == 0 {
            0
        } else {
            u64::MAX >> ((64 - bits_per_value) as u64)
        };
        Some(BitArray { data, bits_per_value, values_per_long, capacity, value_mask })
    }

    /// The packed words.
    pub fn get_data(&self) -> (r: &Vec<u64>)
        ensures
            r@ == self.words(),
    {
        &self.data
    }

    /// Width of each value.
    pub fn get_bits_per_value(&self) -> (r: usize)
        ensures
            r == self.bits(),
    {
        self.bits_per_value
    }

    /// Number of values held.
    pub fn get_capacity(&self) -> (r: usize)
        ensures
            r == self.capacity(),
    {
        self.capacity
    }

    /// Number of packed words.
    pub fn len(&self) -> (r: usize)
        ensures
            r == self.words().len(),
    {
        self.data.len()
    }
}

} // verus!
