//! Encoding of containers in the wire format that `parsing` decodes, and
//! the law that decoding an encoding gives back what was encoded.
use vstd::prelude::*;

use crate::parsing::{
    be_nat, be_u64_at, container_at, direct_at, indirect_at, indirect_data_at, length_at, longs_at,
    models, single_at, varint_at, varint_step, varints_at, ParseError, WireContainer,
};
use crate::palette::PaletteContainer;

verus! {

/// Number of bytes in the VarInt of `v`.
pub open spec fn varint_len(v: u32) -> nat {
    if v < 0x80 {
        1
    } else if v < 0x4000 {
        2
    } else if v < 0x20_0000 {
        3
    } else if v < 0x1000_0000 {
        4
    } else {
        5
    }
}

/// Byte `k` of the VarInt of `v`: seven bits of `v`, with the high bit set
/// on every byte but the last.
pub open spec fn varint_byte(v: u32, k: nat) -> u8 {
    let g = ((v >> ((7 * k) as u32)) & 0x7f) as u8;
    if k + 1 < varint_len(v) {
        g | 0x80
    } else {
        g
    }
}

/// The VarInt of `v`.
pub open spec fn varint_bytes(v: u32) -> Seq<u8> {
    Seq::new(varint_len(v), |k: int| varint_byte(v, k as nat))
}

/// The low `7 * k` bits of `v`.
spec fn low_groups(v: u32, k: nat) -> u32 {
    if k == 0 {
        0
    } else if k == 1 {
        v & 0x7f
    } else if k == 2 {
        v & 0x3fff
    } else if k == 3 {
        v & 0x1f_ffff
    } else if k == 4 {
        v & 0xfff_ffff
    } else {
        v
    }
}

proof fn lemma_groups(v: u32)
    by (bit_vector)
    ensures
        (0u32 | (((v >> 0u32) & 0x7f) << 0u32)) == v & 0x7f,
        ((v & 0x7f) | (((v >> 7u32) & 0x7f) << 7u32)) == v & 0x3fff,
        ((v & 0x3fff) | (((v >> 14u32) & 0x7f) << 14u32)) == v & 0x1f_ffff,
        ((v & 0x1f_ffff) | (((v >> 21u32) & 0x7f) << 21u32)) == v & 0xfff_ffff,
        ((v & 0xfff_ffff) | (((v >> 28u32) & 0x7f) << 28u32)) == v,
        v < 0x80 ==> v & 0x7f == v,
        v < 0x4000 ==> v & 0x3fff == v,
        v < 0x20_0000 ==> v & 0x1f_ffff == v,
        v < 0x1000_0000 ==> v & 0xfff_ffff == v,
        v >= 0x80 ==> (v >> 7u32) != 0,
        v >= 0x4000 ==> (v >> 14u32) != 0,
        v >= 0x20_0000 ==> (v >> 21u32) != 0,
        v >= 0x1000_0000 ==> (v >> 28u32) != 0,
{
}

proof fn lemma_byte_bits(g: u32)
    by (bit_vector)
    requires
        g < 0x80,
    ensures
        (((g as u8) | 0x80) & 0x7f) as u32 == g,
        ((g as u8) & 0x7f) as u32 == g,
        ((g as u8) | 0x80) & 0x80 != 0,
        (g as u8) & 0x80 == 0,
{
}

proof fn lemma_group_small(v: u32, s: u32)
    by (bit_vector)
    ensures
        (v >> s) & 0x7f < 0x80,
{
}

proof fn lemma_varint_from(buf: Seq<u8>, pos: int, v: u32, k: nat)
    requires
        0 <= pos,
        k < varint_len(v),
        pos + varint_len(v) <= buf.len(),
        forall|j: int| 0 <= j < varint_len(v) ==> #[trigger] buf[pos + j] == varint_byte(v, j as nat),
    ensures
        varint_step(buf, pos, k, low_groups(v, k)) == Ok::<(u32, int), ParseError>(
            (v, pos + varint_len(v)),
        ),
    decreases varint_len(v) - k,
{
    let b = buf[pos + k];
    assert(b == varint_byte(v, k));
    let g = (v >> ((7 * k) as u32)) & 0x7f;
    lemma_group_small(v, (7 * k) as u32);
    lemma_byte_bits(g);
    lemma_groups(v);
    assert(((b & 0x7f) as u32) == g);
    assert(low_groups(v, k) | (g << ((7 * k) as u32)) == low_groups(v, k + 1));
    if k + 1 < varint_len(v) {
        lemma_varint_from(buf, pos, v, k + 1);
    } else {
        assert(low_groups(v, k + 1) == v);
    }
}

/// The VarInt of `v`, wherever it stands in a buffer, decodes to `v` and
/// ends right after its last byte.
pub proof fn lemma_varint_round_trip(buf: Seq<u8>, pos: int, v: u32)
    requires
        0 <= pos,
        pos + varint_len(v) <= buf.len(),
        buf.subrange(pos, pos + varint_len(v)) == varint_bytes(v),
    ensures
        varint_at(buf, pos) == Ok::<(u32, int), ParseError>((v, pos + varint_len(v))),
{
    assert forall|j: int| 0 <= j < varint_len(v) implies #[trigger] buf[pos + j] == varint_byte(
        v,
        j as nat,
    ) by {
        assert(buf.subrange(pos, pos + varint_len(v))[j] == buf[pos + j]);
    }
    lemma_varint_from(buf, pos, v, 0);
}

proof fn lemma_shifts(v: u32)
    by (bit_vector)
    ensures
        (v >> 0u32) >> 7u32 == v >> 7u32,
        (v >> 7u32) >> 7u32 == v >> 14u32,
        (v >> 14u32) >> 7u32 == v >> 21u32,
        (v >> 21u32) >> 7u32 == v >> 28u32,
        (v >> 28u32) >> 7u32 == 0,
        (v >> 7u32 == 0) == (v < 0x80),
        (v >> 14u32 == 0) == (v < 0x4000),
        (v >> 21u32 == 0) == (v < 0x20_0000),
        (v >> 28u32 == 0) == (v < 0x1000_0000),
        v >> 0u32 == v,
{
}

/// Appends the VarInt of `v` to `out`.
pub fn write_varint(out: &mut Vec<u8>, v: u32)
    ensures
        final(out)@ == old(out)@ + varint_bytes(v),
{
    let ghost start = out@;
    let ghost n = varint_len(v);
    let mut rest = v;
    let mut k: usize = 0;
    proof {
        lemma_shifts(v);
    }
    loop
        invariant
            k < n,
            n == varint_len(v),
            k < 5,
            rest == v >> ((7 * k) as u32),
            start == old(out)@,
            out@ == start + varint_bytes(v).subrange(0, k as int),
        decreases n - k,
    {
        let g = rest & 0x7f;
        let next = rest >> 7;
        proof {
            lemma_shifts(v);
            lemma_group_small(v, (7 * k) as u32);
            // one case per group index, so that each shift is a constant
            assert(next == 0 <==> k + 1 == n) by {
                if k == 0 {
                } else if k == 1 {
                } else if k == 2 {
                } else if k == 3 {
                } else {
                }
            }
        }
        if next == 0 {
            out.push(g as u8);
            proof {
                assert(out@ =~= start + varint_bytes(v));
            }
            return;
        }
        out.push((g as u8) | 0x80);
        proof {
            assert(out@ =~= start + varint_bytes(v).subrange(0, k + 1));
            // one case per group index, so that each shift is a constant
            assert(next == v >> ((7 * (k + 1)) as u32)) by {
                if k == 0 {
                } else if k == 1 {
                } else if k == 2 {
                } else {
                }
            }
        }
        rest = next;
        k = k + 1;
    }
}

/// The eight bytes of `w`, most significant first.
pub open spec fn be_bytes(w: u64) -> Seq<u8> {
    Seq::new(8, |k: int| ((w >> ((8 * (7 - k)) as u64)) & 0xff) as u8)
}

/// The words of `ws`, eight big-endian bytes each.
pub open spec fn words_bytes(ws: Seq<u64>) -> Seq<u8>
    decreases ws.len(),
{
    if ws.len() == 0 {
        Seq::empty()
    } else {
        words_bytes(ws.drop_last()) + be_bytes(ws.last())
    }
}

/// The VarInts of `vs`, one after another.
pub open spec fn varints_bytes(vs: Seq<u32>) -> Seq<u8>
    decreases vs.len(),
{
    if vs.len() == 0 {
        Seq::empty()
    } else {
        varints_bytes(vs.drop_last()) + varint_bytes(vs.last())
    }
}

proof fn lemma_be_nat_push(s: Seq<u8>, x: u8)
    ensures
        be_nat(s.push(x)) == be_nat(s) * 256 + x,
{
    assert(s.push(x).drop_last() =~= s);
}

proof fn lemma_be_recombine(w: u64, c1: u64, c2: u64, c3: u64, c4: u64, c5: u64, c6: u64)
    by (bit_vector)
    requires
        c1 == ((w >> 56u64) & 0xff) * 256 + ((w >> 48u64) & 0xff),
        c2 == c1 * 256 + ((w >> 40u64) & 0xff),
        c3 == c2 * 256 + ((w >> 32u64) & 0xff),
        c4 == c3 * 256 + ((w >> 24u64) & 0xff),
        c5 == c4 * 256 + ((w >> 16u64) & 0xff),
        c6 == c5 * 256 + ((w >> 8u64) & 0xff),
    ensures
        w == c6 * 256 + ((w >> 0u64) & 0xff),
{
}

/// The eight big-endian bytes of `w` read back as `w`.
pub proof fn lemma_be_round_trip(w: u64)
    ensures
        be_nat(be_bytes(w)) == w,
{
    let b = be_bytes(w);
    let s0 = Seq::<u8>::empty();
    lemma_be_nat_push(s0, b[0]);
    lemma_be_nat_push(s0.push(b[0]), b[1]);
    lemma_be_nat_push(s0.push(b[0]).push(b[1]), b[2]);
    lemma_be_nat_push(s0.push(b[0]).push(b[1]).push(b[2]), b[3]);
    lemma_be_nat_push(s0.push(b[0]).push(b[1]).push(b[2]).push(b[3]), b[4]);
    lemma_be_nat_push(s0.push(b[0]).push(b[1]).push(b[2]).push(b[3]).push(b[4]), b[5]);
    lemma_be_nat_push(s0.push(b[0]).push(b[1]).push(b[2]).push(b[3]).push(b[4]).push(b[5]), b[6]);
    lemma_be_nat_push(
        s0.push(b[0]).push(b[1]).push(b[2]).push(b[3]).push(b[4]).push(b[5]).push(b[6]),
        b[7],
    );
    assert(b =~= s0.push(b[0]).push(b[1]).push(b[2]).push(b[3]).push(b[4]).push(b[5]).push(b[6]).push(
        b[7],
    ));
    assert(be_nat(s0) == 0);
    let c1 = (((w >> 56u64) & 0xff) * 256 + ((w >> 48u64) & 0xff)) as u64;
    let c2 = (c1 * 256 + ((w >> 40u64) & 0xff)) as u64;
    let c3 = (c2 * 256 + ((w >> 32u64) & 0xff)) as u64;
    let c4 = (c3 * 256 + ((w >> 24u64) & 0xff)) as u64;
    let c5 = (c4 * 256 + ((w >> 16u64) & 0xff)) as u64;
    let c6 = (c5 * 256 + ((w >> 8u64) & 0xff)) as u64;
    assert(((w >> 56u64) & 0xff) < 256) by (bit_vector);
    assert(((w >> 48u64) & 0xff) < 256) by (bit_vector);
    assert(((w >> 40u64) & 0xff) < 256) by (bit_vector);
    assert(((w >> 32u64) & 0xff) < 256) by (bit_vector);
    assert(((w >> 24u64) & 0xff) < 256) by (bit_vector);
    assert(((w >> 16u64) & 0xff) < 256) by (bit_vector);
    assert(((w >> 8u64) & 0xff) < 256) by (bit_vector);
    assert(((w >> 0u64) & 0xff) < 256) by (bit_vector);
    lemma_be_recombine(w, c1, c2, c3, c4, c5, c6);
}

proof fn lemma_words_bytes_index(ws: Seq<u64>)
    ensures
        words_bytes(ws).len() == 8 * ws.len(),
        forall|i: int, j: int|
            0 <= i < ws.len() && 0 <= j < 8 ==> #[trigger] words_bytes(ws)[8 * i + j] == be_bytes(
                ws[i],
            )[j],
    decreases ws.len(),
{
    if ws.len() > 0 {
        let init = ws.drop_last();
        lemma_words_bytes_index(init);
        assert forall|i: int, j: int|
            0 <= i < ws.len() && 0 <= j < 8 implies #[trigger] words_bytes(ws)[8 * i + j] == be_bytes(
            ws[i],
        )[j] by {
            if i < ws.len() - 1 {
                assert(words_bytes(ws)[8 * i + j] == words_bytes(init)[8 * i + j]);
                assert(init[i] == ws[i]);
            }
        }
    }
}

/// The words of `ws`, wherever they stand in a buffer, decode to `ws`.
pub proof fn lemma_words_round_trip(buf: Seq<u8>, pos: int, ws: Seq<u64>)
    requires
        0 <= pos,
        pos + 8 * ws.len() <= buf.len(),
        buf.subrange(pos, pos + 8 * ws.len()) == words_bytes(ws),
    ensures
        longs_at(buf, pos, ws.len()) == Ok::<(Seq<u64>, int), ParseError>((ws, pos + 8 * ws.len())),
{
    lemma_words_bytes_index(ws);
    assert forall|i: int| 0 <= i < ws.len() implies #[trigger] be_u64_at(buf, pos + 8 * i) == ws[i] by {
        assert(buf.subrange(pos + 8 * i, pos + 8 * i + 8) =~= be_bytes(ws[i])) by {
            assert forall|j: int| 0 <= j < 8 implies buf.subrange(pos + 8 * i, pos + 8 * i + 8)[j]
                == be_bytes(ws[i])[j] by {
                assert(buf[pos + 8 * i + j] == buf.subrange(pos, pos + 8 * ws.len())[8 * i + j]);
            }
        }
        lemma_be_round_trip(ws[i]);
    }
    assert(Seq::new(ws.len(), |i: int| be_u64_at(buf, pos + 8 * i)) =~= ws);
}

/// The VarInts of `vs`, wherever they stand in a buffer, decode to `vs`.
pub proof fn lemma_varints_round_trip(buf: Seq<u8>, pos: int, vs: Seq<u32>)
    requires
        0 <= pos,
        pos + varints_bytes(vs).len() <= buf.len(),
        buf.subrange(pos, pos + varints_bytes(vs).len()) == varints_bytes(vs),
    ensures
        varints_at(buf, pos, vs.len()) == Ok::<(Seq<u32>, int), ParseError>(
            (vs, pos + varints_bytes(vs).len()),
        ),
    decreases vs.len(),
{
    if vs.len() > 0 {
        let init = vs.drop_last();
        let a = varints_bytes(init);
        let b = varint_bytes(vs.last());
        assert(varints_bytes(vs) == a + b);
        assert(buf.subrange(pos, pos + a.len()) =~= a) by {
            assert forall|j: int| 0 <= j < a.len() implies buf.subrange(pos, pos + a.len())[j] == a[j] by {
                assert(buf.subrange(pos, pos + (a + b).len())[j] == (a + b)[j]);
            }
        }
        lemma_varints_round_trip(buf, pos, init);
        let p = pos + a.len();
        assert(buf.subrange(p, p + varint_len(vs.last())) =~= b) by {
            assert forall|j: int| 0 <= j < b.len() implies buf.subrange(p, p + b.len())[j] == b[j] by {
                assert(buf.subrange(pos, pos + (a + b).len())[a.len() + j] == (a + b)[a.len() + j]);
            }
        }
        lemma_varint_round_trip(buf, p, vs.last());
        assert(init.push(vs.last()) =~= vs);
        assert(init.len() == (vs.len() - 1) as nat);
        assert(varints_at(buf, pos, vs.len()) == Ok::<(Seq<u32>, int), ParseError>(
            (init.push(vs.last()), p + varint_len(vs.last())),
        ));
    } else {
        assert(vs =~= Seq::<u32>::empty());
    }
}

/// The wire bytes of a container: its first byte, then its fields.
pub open spec fn container_bytes(w: WireContainer) -> Seq<u8> {
    match w {
        WireContainer::Single(v) => seq![0u8] + varint_bytes(v) + varint_bytes(0),
        WireContainer::Indirect { palette, bits, words } => seq![bits as u8] + varint_bytes(
            palette.len() as u32,
        ) + varints_bytes(palette) + varint_bytes(words.len() as u32) + words_bytes(words),
        WireContainer::Direct { bits, words } => seq![bits as u8] + varint_bytes(
            words.len() as u32,
        ) + words_bytes(words),
    }
}

proof fn lemma_varints_len(buf: Seq<u8>, pos: int, n: nat)
    ensures
        varints_at(buf, pos, n) matches Ok((s, _)) ==> s.len() == n,
    decreases n,
{
    if n > 0 {
        lemma_varints_len(buf, pos, (n - 1) as nat);
    }
}

/// `a` stands at `at` in `e`.
spec fn stands_at(e: Seq<u8>, at: int, a: Seq<u8>) -> bool {
    &&& 0 <= at
    &&& at + a.len() <= e.len()
    &&& e.subrange(at, at + a.len()) == a
}

proof fn lemma_stands(x: Seq<u8>, a: Seq<u8>, y: Seq<u8>)
    ensures
        stands_at(x + a + y, x.len() as int, a),
{
    assert((x + a + y).subrange(x.len() as int, (x.len() + a.len()) as int) =~= a);
}

proof fn lemma_length_round_trip(e: Seq<u8>, at: int, n: nat)
    requires
        n < 0x8000_0000,
        stands_at(e, at, varint_bytes(n as u32)),
    ensures
        length_at(e, at) == Ok::<(nat, int), ParseError>((n, at + varint_len(n as u32))),
{
    lemma_varint_round_trip(e, at, n as u32);
}

proof fn lemma_single_round_trip(v: u32, rest: Seq<u8>)
    ensures
        single_at(container_bytes(WireContainer::Single(v)) + rest, 1) == Ok::<
            (WireContainer, int),
            ParseError,
        >((WireContainer::Single(v), container_bytes(WireContainer::Single(v)).len() as int)),
{
    let h = seq![0u8];
    let a = varint_bytes(v);
    let z = varint_bytes(0);
    let e = h + a + z + rest;
    assert(container_bytes(WireContainer::Single(v)) + rest == e);
    lemma_stands(h, a, z + rest);
    assert(h + a + (z + rest) =~= e);
    lemma_varint_round_trip(e, 1, v);
    lemma_stands(h + a, z, rest);
    lemma_varint_round_trip(e, (h + a).len() as int, 0);
}

proof fn lemma_indirect_round_trip(
    palette: Seq<u32>,
    bits: nat,
    words: Seq<u64>,
    capacity: nat,
    rest: Seq<u8>,
)
    requires
        0 < palette.len() <= capacity,
        palette.len() < 0x8000_0000,
        words.len() < 0x8000_0000,
        words.len() == crate::bit_array::word_count(bits, capacity),
        crate::parsing::indices_below(words, bits, capacity, palette.len()),
    ensures
        ({
            let w = WireContainer::Indirect { palette, bits, words };
            indirect_at(container_bytes(w) + rest, 1, bits, capacity) == Ok::<
                (WireContainer, int),
                ParseError,
            >((w, container_bytes(w).len() as int))
        }),
{
    let w = WireContainer::Indirect { palette, bits, words };
    let h = seq![bits as u8];
    let l = varint_bytes(palette.len() as u32);
    let pb = varints_bytes(palette);
    let nb = varint_bytes(words.len() as u32);
    let wb = words_bytes(words);
    let e = h + l + pb + nb + wb + rest;
    assert(container_bytes(w) + rest == e);
    assert(h + l + (pb + nb + wb + rest) =~= e);
    lemma_stands(h, l, pb + nb + wb + rest);
    lemma_length_round_trip(e, 1, palette.len());
    assert(h + l + pb + (nb + wb + rest) =~= e);
    lemma_stands(h + l, pb, nb + wb + rest);
    lemma_varints_round_trip(e, (h + l).len() as int, palette);
    assert(h + l + pb + nb + (wb + rest) =~= e);
    lemma_stands(h + l + pb, nb, wb + rest);
    lemma_length_round_trip(e, (h + l + pb).len() as int, words.len());
    lemma_stands(h + l + pb + nb, wb, rest);
    lemma_words_bytes_index(words);
    lemma_words_round_trip(e, (h + l + pb + nb).len() as int, words);
    assert(indirect_data_at(e, (h + l + pb).len() as int, bits, capacity, palette) == Ok::<
        (WireContainer, int),
        ParseError,
    >((w, (h + l + pb + nb + wb).len() as int)));
}

proof fn lemma_direct_round_trip(bits: nat, words: Seq<u64>, capacity: nat, rest: Seq<u8>)
    requires
        words.len() < 0x8000_0000,
        words.len() == crate::bit_array::word_count(bits, capacity),
    ensures
        ({
            let w = WireContainer::Direct { bits, words };
            direct_at(container_bytes(w) + rest, 1, capacity, bits) == Ok::<
                (WireContainer, int),
                ParseError,
            >((w, container_bytes(w).len() as int))
        }),
{
    let w = WireContainer::Direct { bits, words };
    let h = seq![bits as u8];
    let nb = varint_bytes(words.len() as u32);
    let wb = words_bytes(words);
    let e = h + nb + wb + rest;
    assert(container_bytes(w) + rest == e);
    assert(h + nb + (wb + rest) =~= e);
    lemma_stands(h, nb, wb + rest);
    lemma_length_round_trip(e, 1, words.len());
    lemma_stands(h + nb, wb, rest);
    lemma_words_bytes_index(words);
    lemma_words_round_trip(e, (h + nb).len() as int, words);
}

/// A container that decoding accepted, encoded again and followed by any
/// bytes, decodes to the same container and ends where its encoding ends;
/// the encoding of a direct container marks it with `global_bits`, which
/// must therefore be above `max_indirect`.
pub proof fn lemma_container_round_trip(
    buf: Seq<u8>,
    pos: int,
    capacity: nat,
    max_indirect: nat,
    global_bits: nat,
    rest: Seq<u8>,
)
    requires
        container_at(buf, pos, capacity, max_indirect, global_bits) is Ok,
        max_indirect < global_bits < 256,
    ensures
        container_at(buf, pos, capacity, max_indirect, global_bits) matches Ok((w, _))
            && container_at(container_bytes(w) + rest, 0, capacity, max_indirect, global_bits)
            == Ok::<(WireContainer, int), ParseError>((w, container_bytes(w).len() as int)),
{
    let w = container_at(buf, pos, capacity, max_indirect, global_bits)->Ok_0.0;
    let e = container_bytes(w) + rest;
    match w {
        WireContainer::Single(v) => {
            lemma_single_round_trip(v, rest);
        },
        WireContainer::Indirect { palette, bits, words } => {
            let bpp = buf[pos];
            if let Ok((plen, p)) = length_at(buf, pos + 1) {
                lemma_varints_len(buf, p, plen);
                if let Ok((pal, q)) = varints_at(buf, p, plen) {
                    if let Ok((n, r)) = length_at(buf, q) {
                        assert(words.len() == n);
                    }
                }
            }
            lemma_indirect_round_trip(palette, bits, words, capacity, rest);
            assert(e[0] == bits as u8);
        },
        WireContainer::Direct { bits, words } => {
            if let Ok((n, r)) = length_at(buf, pos + 1) {
                assert(words.len() == n);
            }
            lemma_direct_round_trip(bits, words, capacity, rest);
            assert(e[0] == bits as u8);
        },
    }
}

/// How the wire describes container `c`.
pub open spec fn wire_of(c: PaletteContainer) -> WireContainer {
    match c {
        PaletteContainer::Single(v) => WireContainer::Single(v),
        PaletteContainer::Indirect { palette, data } => WireContainer::Indirect {
            palette: palette@,
            bits: data.bits(),
            words: data.words(),
        },
        PaletteContainer::Direct(data) => WireContainer::Direct {
            bits: data.bits(),
            words: data.words(),
        },
    }
}

/// Appends the eight big-endian bytes of `w` to `out`.
pub fn write_be_u64(out: &mut Vec<u8>, w: u64)
    ensures
        final(out)@ == old(out)@ + be_bytes(w),
{
    out.push(((w >> 56u64) & 0xff) as u8);
    out.push(((w >> 48u64) & 0xff) as u8);
    out.push(((w >> 40u64) & 0xff) as u8);
    out.push(((w >> 32u64) & 0xff) as u8);
    out.push(((w >> 24u64) & 0xff) as u8);
    out.push(((w >> 16u64) & 0xff) as u8);
    out.push(((w >> 8u64) & 0xff) as u8);
    out.push((w & 0xff) as u8);
    proof {
        assert(w & 0xff == (w >> 0u64) & 0xff) by (bit_vector);
        assert(out@ =~= old(out)@ + be_bytes(w));
    }
}

/// Appends the wire form of `c` (see `container_bytes`) to `out`.
pub fn write_palette_container(c: &PaletteContainer, out: &mut Vec<u8>)
    requires
        c.wf(),
        c is Single || (c.width() < 256 && c.palette_view().len() <= u32::MAX),
        match c {
            PaletteContainer::Single(_) => true,
            PaletteContainer::Indirect { data, .. } => data.words().len() <= u32::MAX,
            PaletteContainer::Direct(data) => data.words().len() <= u32::MAX,
        },
    ensures
        final(out)@ == old(out)@ + container_bytes(wire_of(*c)),
{
    let ghost start = out@;
    match c {
        PaletteContainer::Single(v) => {
            out.push(0u8);
            write_varint(out, *v);
            write_varint(out, 0);
            proof {
                assert(out@ =~= start + container_bytes(wire_of(*c)));
            }
        },
        PaletteContainer::Indirect { palette, data } => {
            out.push(data.get_bits_per_value() as u8);
            write_varint(out, palette.len() as u32);
            let ghost head = out@;
            let mut i: usize = 0;
            while i < palette.len()
                invariant
                    i <= palette@.len(),
                    out@ == head + varints_bytes(palette@.subrange(0, i as int)),
                decreases palette@.len() - i,
            {
                write_varint(out, palette[i]);
                proof {
                    assert(palette@.subrange(0, i + 1).drop_last() =~= palette@.subrange(0, i as int));
                    assert(out@ =~= head + varints_bytes(palette@.subrange(0, i + 1)));
                }
                i = i + 1;
            }
            proof {
                assert(palette@.subrange(0, palette@.len() as int) =~= palette@);
            }
            let words = data.get_data();
            write_varint(out, words.len() as u32);
            let ghost mid = out@;
            let mut j: usize = 0;
            while j < words.len()
                invariant
                    j <= words@.len(),
                    out@ == mid + words_bytes(words@.subrange(0, j as int)),
                decreases words@.len() - j,
            {
                write_be_u64(out, words[j]);
                proof {
                    assert(words@.subrange(0, j + 1).drop_last() =~= words@.subrange(0, j as int));
                    assert(out@ =~= mid + words_bytes(words@.subrange(0, j + 1)));
                }
                j = j + 1;
            }
            proof {
                assert(words@.subrange(0, words@.len() as int) =~= words@);
                assert(out@ =~= start + container_bytes(wire_of(*c)));
            }
        },
        PaletteContainer::Direct(data) => {
            out.push(data.get_bits_per_value() as u8);
            let words = data.get_data();
            write_varint(out, words.len() as u32);
            let ghost mid = out@;
            let mut j: usize = 0;
            while j < words.len()
                invariant
                    j <= words@.len(),
                    out@ == mid + words_bytes(words@.subrange(0, j as int)),
                decreases words@.len() - j,
            {
                write_be_u64(out, words[j]);
                proof {
                    assert(words@.subrange(0, j + 1).drop_last() =~= words@.subrange(0, j as int));
                    assert(out@ =~= mid + words_bytes(words@.subrange(0, j + 1)));
                }
                j = j + 1;
            }
            proof {
                assert(words@.subrange(0, words@.len() as int) =~= words@);
                assert(out@ =~= start + container_bytes(wire_of(*c)));
            }
        },
    }
}

/// Decoding a container, encoding the result with `write_palette_container`
/// and decoding that again gives a container of the same kind, palette and
/// width that reads the same ID at every slot.
pub proof fn lemma_reparse_same(
    buf: Seq<u8>,
    pos: int,
    capacity: nat,
    max_indirect: nat,
    global_bits: nat,
    first: PaletteContainer,
    rest: Seq<u8>,
    second: PaletteContainer,
)
    requires
        max_indirect < global_bits < 256,
        container_at(buf, pos, capacity, max_indirect, global_bits) matches Ok((w, _)) && models(
            first,
            w,
            capacity,
        ),
        container_at(container_bytes(wire_of(first)) + rest, 0, capacity, max_indirect, global_bits)
            matches Ok((w2, _)) && models(second, w2, capacity),
    ensures
        wire_of(second) == wire_of(first),
        second.palette_view() == first.palette_view(),
        second.width() == first.width(),
        forall|i: int| 0 <= i < capacity ==> #[trigger] second.value_at(i) == first.value_at(i),
{
    lemma_container_round_trip(buf, pos, capacity, max_indirect, global_bits, rest);
    let w = container_at(buf, pos, capacity, max_indirect, global_bits)->Ok_0.0;
    assert(wire_of(first) == w);
    assert(wire_of(second) == w);
    match (first, second) {
        (PaletteContainer::Indirect { data: d1, .. }, PaletteContainer::Indirect { data: d2, .. }) => {
            assert(d1@ =~= d2@);
        },
        (PaletteContainer::Direct(d1), PaletteContainer::Direct(d2)) => {
            assert(d1@ =~= d2@);
        },
        _ => {},
    }
}

} // verus!
