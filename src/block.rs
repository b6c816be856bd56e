//! DEFLATE blocks: the bits of a block of symbols under fixed or dynamic
//! Huffman codes, and blocks held as bytes plus an unfinished byte.

use vstd::prelude::*;
use crate::bits::{BitSink, exp2, le_bits, msb_bits, packs, lemma_exp2_small, lemma_le_bits_len};
use crate::huffman::HuffmanCodes;
use crate::symbol::{Symbol, length_repr, dist_repr, length_repr_spec, dist_repr_spec};

verus! {

/// The bits of a table entry `(length, code)`: the code, most significant first.
pub open spec fn code_of(t: (u32, u32)) -> Seq<bool> {
    msb_bits(t.1 as nat, t.0 as nat)
}

/// Pointers reach 1 to 32768 bytes back.
pub open spec fn symbols_valid(syms: Seq<Symbol>) -> bool {
    forall|i: int|
        0 <= i < syms.len() ==> match #[trigger] syms[i] {
            Symbol::Literal(_) => true,
            Symbol::Pointer { length, distance } => 1 <= distance <= 32768,
        }
}

/// Every code a block uses indexes the tables: `nlit` literal/length
/// entries and `ndist` distance entries.
pub open spec fn symbols_fit(nlit: int, ndist: int, syms: Seq<Symbol>) -> bool {
    forall|i: int|
        0 <= i < syms.len() ==> match #[trigger] syms[i] {
            Symbol::Literal(b) => b < nlit,
            Symbol::Pointer { length, distance } => {
                &&& length_repr_spec(length as nat + 3).0 < nlit
                &&& dist_repr_spec(distance as nat).0 < ndist
            },
        }
}

/// Valid symbols fit the full alphabets.
pub proof fn lemma_symbols_fit_full(syms: Seq<Symbol>)
    requires
        symbols_valid(syms),
    ensures
        symbols_fit(286, 30, syms),
{
    assert forall|i: int| 0 <= i < syms.len() implies match #[trigger] syms[i] {
        Symbol::Literal(b) => b < 286,
        Symbol::Pointer { length, distance } => {
            &&& length_repr_spec(length as nat + 3).0 < 286
            &&& dist_repr_spec(distance as nat).0 < 30
        },
    } by {
        match syms[i] {
            Symbol::Literal(_) => {},
            Symbol::Pointer { length, distance } => {
                crate::symbol::lemma_length_code_range(length as nat + 3);
                crate::symbol::lemma_dist_code_range(distance as nat);
            },
        }
    }
}

/// The bits of one symbol under the literal/length table `lit` and the
/// distance table `dist`: the codes, each followed by its extra bits.
pub open spec fn symbol_bits(lit: Seq<(u32, u32)>, dist: Seq<(u32, u32)>, s: Symbol) -> Seq<bool> {
    match s {
        Symbol::Literal(b) => code_of(lit[b as int]),
        Symbol::Pointer { length, distance } => {
            let l = length_repr_spec(length as nat + 3);
            let d = dist_repr_spec(distance as nat);
            code_of(lit[l.0 as int]) + le_bits(l.2 as nat, l.1 as nat) + code_of(dist[d.0 as int])
                + le_bits(d.2 as nat, d.1 as nat)
        },
    }
}

/// The bits of a run of symbols, one after the other.
pub open spec fn body_bits(lit: Seq<(u32, u32)>, dist: Seq<(u32, u32)>, syms: Seq<Symbol>) -> Seq<
    bool,
>
    decreases syms.len(),
{
    if syms.len() == 0 {
        Seq::empty()
    } else {
        body_bits(lit, dist, syms.drop_last()) + symbol_bits(lit, dist, syms.last())
    }
}

/// The fixed literal/length code of RFC 1951, section 3.2.6.
pub open spec fn fixed_lit_code(s: int) -> (u32, u32) {
    if s < 144 {
        (8, (48 + s) as u32)
    } else if s < 256 {
        (9, (400 + s - 144) as u32)
    } else if s < 280 {
        (7, (s - 256) as u32)
    } else {
        (8, (192 + s - 280) as u32)
    }
}

pub open spec fn fixed_lit_table() -> Seq<(u32, u32)> {
    Seq::new(288, |s: int| fixed_lit_code(s))
}

/// Fixed distance codes are the 5-bit numbers 0..=29.
pub open spec fn fixed_dist_table() -> Seq<(u32, u32)> {
    Seq::new(30, |d: int| (5u32, d as u32))
}

pub open spec fn bit_value(b: bool) -> nat {
    if b {
        1
    } else {
        0
    }
}

/// A block under the fixed codes: BFINAL, BTYPE = 01, the symbols, end of block.
pub open spec fn fixed_block_bits(syms: Seq<Symbol>, bfinal: bool) -> Seq<bool> {
    le_bits(bit_value(bfinal), 1) + le_bits(1, 2) + body_bits(
        fixed_lit_table(),
        fixed_dist_table(),
        syms,
    ) + code_of(fixed_lit_table()[256])
}

/// The bits of whole bytes, each least significant bit first.
pub open spec fn bytes_bits(bytes: Seq<u8>) -> Seq<bool>
    decreases bytes.len(),
{
    if bytes.len() == 0 {
        Seq::empty()
    } else {
        bytes_bits(bytes.drop_last()) + le_bits(bytes.last() as nat, 8)
    }
}

/// An encoded block: whole bytes, then `(bit_count, value)` of an unfinished byte.
pub open spec fn enc_wf(enc: (Vec<u8>, (u32, u8))) -> bool {
    enc.1.0 < 8 && (enc.1.1 as nat) < exp2(enc.1.0 as nat)
}

/// The bits an encoded block stands for.
pub open spec fn enc_bits(enc: (Vec<u8>, (u32, u8))) -> Seq<bool> {
    bytes_bits(enc.0@) + le_bits(enc.1.1 as nat, enc.1.0 as nat)
}

pub proof fn lemma_bytes_bits_len(bytes: Seq<u8>)
    ensures
        bytes_bits(bytes).len() == 8 * bytes.len(),
    decreases bytes.len(),
{
    if bytes.len() > 0 {
        lemma_bytes_bits_len(bytes.drop_last());
        lemma_le_bits_len(bytes.last() as nat, 8);
    }
}

/// Packed bytes stand for the bits they pack.
pub proof fn lemma_packs_bytes_bits(bytes: Seq<u8>, bits: Seq<bool>)
    requires
        packs(bytes, bits),
    ensures
        bytes_bits(bytes) == bits,
    decreases bytes.len(),
{
    if bytes.len() > 0 {
        let m = bytes.len() - 1;
        let front = bits.subrange(0, 8 * m);
        assert(packs(bytes.drop_last(), front)) by {
            assert forall|k: int| 0 <= k < m implies le_bits(#[trigger] bytes.drop_last()[k] as nat, 8)
                == front.subrange(8 * k, 8 * k + 8) by {
                assert(le_bits(bytes[k] as nat, 8) == bits.subrange(8 * k, 8 * k + 8));
                assert(front.subrange(8 * k, 8 * k + 8) =~= bits.subrange(8 * k, 8 * k + 8));
            }
        }
        lemma_packs_bytes_bits(bytes.drop_last(), front);
        assert(le_bits(bytes[m] as nat, 8) == bits.subrange(8 * m, 8 * m + 8));
        assert(bits =~= front + bits.subrange(8 * m, 8 * m + 8));
    } else {
        assert(bits =~= Seq::<bool>::empty());
    }
}

/// Finishes a sink into an encoded block.
pub fn sink_into_block(sink: BitSink) -> (r: (Vec<u8>, (u32, u8)))
    requires
        sink.wf(),
    ensures
        enc_wf(r),
        enc_bits(r) == sink@,
{
    let ghost bits = sink@;
    let r = sink.into_trailing();
    proof {
        let cut = bits.len() - r.1.0;
        lemma_packs_bytes_bits(r.0@, bits.subrange(0, cut));
        assert(bits =~= bits.subrange(0, cut) + bits.subrange(cut, bits.len() as int));
    }
    r
}

/// Appends the bits of an encoded block to a sink.
pub fn write_block(sink: &mut BitSink, block: &(Vec<u8>, (u32, u8)))
    requires
        old(sink).wf(),
        enc_wf(*block),
    ensures
        final(sink).wf(),
        final(sink)@ == old(sink)@ + enc_bits(*block),
{
    let bytes = &block.0;
    let mut i: usize = 0;
    while i < bytes.len()
        invariant
            sink.wf(),
            i <= bytes@.len(),
            sink@ == old(sink)@ + bytes_bits(bytes@.take(i as int)),
        decreases bytes@.len() - i,
    {
        proof {
            lemma_exp2_small();
            assert(bytes@.take(i as int + 1).drop_last() =~= bytes@.take(i as int));
        }
        sink.write_bits(8, bytes[i] as u32);
        i = i + 1;
    }
    proof {
        assert(bytes@.take(bytes@.len() as int) =~= bytes@);
    }
    sink.write_bits(block.1.0, block.1.1 as u32);
}

/// Marks an encoded block as the final one: sets its first bit.
pub fn set_bfinal(block: &mut (Vec<u8>, (u32, u8)))
    requires
        enc_wf(*old(block)),
        enc_bits(*old(block)).len() > 0,
    ensures
        enc_wf(*final(block)),
        enc_bits(*final(block)) == enc_bits(*old(block)).update(0, true),
{
    proof {
        lemma_bytes_bits_len(block.0@);
    }
    if block.0.len() == 0 {
        let v = block.1.1;
        let n = block.1.0;
        proof {
            lemma_set_low_bit(v, n as nat);
            assert(bytes_bits(block.0@) =~= Seq::<bool>::empty());
        }
        block.1.1 = v | 1;
        proof {
            assert(enc_bits(*block) =~= enc_bits(*old(block)).update(0, true));
        }
    } else {
        let b = block.0[0];
        proof {
            lemma_exp2_small();
            lemma_set_low_bit(b, 8);
        }
        block.0.set(0, b | 1);
        proof {
            lemma_bytes_bits_first(old(block).0@);
            lemma_bytes_bits_first(block.0@);
            assert(block.0@.drop_first() =~= old(block).0@.drop_first());
            assert(enc_bits(*block) =~= enc_bits(*old(block)).update(0, true));
        }
    }
}

/// Setting bit 0 turns the first of the low bits on and keeps the others.
proof fn lemma_set_low_bit(v: u8, n: nat)
    requires
        1 <= n <= 8,
        (v as nat) < exp2(n),
    ensures
        ((v | 1) as nat) < exp2(n),
        le_bits((v | 1) as nat, n) == le_bits(v as nat, n).update(0, true),
{
    assert((v | 1) % 2 == 1 && (v | 1) / 2 == v / 2) by (bit_vector);
    assert(v % 2 == 0 ==> (v | 1) == v + 1) by (bit_vector);
    assert(v % 2 == 1 ==> (v | 1) == v) by (bit_vector);
    lemma_le_bits_len(v as nat, n);
    lemma_le_bits_len((v as nat) / 2, (n - 1) as nat);
    assert(le_bits((v | 1) as nat, n) =~= le_bits(v as nat, n).update(0, true));
    if v % 2 == 0 {
        assert(exp2(n) == 2 * exp2((n - 1) as nat));
        assert((v as nat) < exp2(n));
    }
}

/// The bits of bytes are the first byte's bits, then the rest's.
proof fn lemma_bytes_bits_first(bytes: Seq<u8>)
    requires
        bytes.len() > 0,
    ensures
        bytes_bits(bytes) == le_bits(bytes[0] as nat, 8) + bytes_bits(bytes.drop_first()),
    decreases bytes.len(),
{
    if bytes.len() == 1 {
        assert(bytes.drop_last() =~= Seq::<u8>::empty());
        assert(bytes.drop_first() =~= Seq::<u8>::empty());
        assert(bytes_bits(bytes) =~= le_bits(bytes[0] as nat, 8) + bytes_bits(bytes.drop_first()));
    } else {
        lemma_bytes_bits_first(bytes.drop_last());
        assert(bytes.drop_last().drop_first() =~= bytes.drop_first().drop_last());
        assert(bytes.drop_first().last() == bytes.last());
        assert(bytes_bits(bytes) =~= le_bits(bytes[0] as nat, 8) + bytes_bits(bytes.drop_first()));
    }
}

/// The fixed literal/length and distance code tables.
pub fn fixed_codes() -> (r: (HuffmanCodes, HuffmanCodes))
    ensures
        r.0.wf(),
        r.1.wf(),
        r.0@ == fixed_lit_table(),
        r.1@ == fixed_dist_table(),
{
    let mut lit = HuffmanCodes::empty(288);
    let mut s: u16 = 0;
    while s < 288
        invariant
            s <= 288,
            lit.wf(),
            lit@.len() == 288,
            forall|t: int| 0 <= t < s ==> #[trigger] lit@[t] == fixed_lit_code(t),
        decreases 288 - s,
    {
        let code: (u32, u32) = if s < 144 {
            (8, 48 + s as u32)
        } else if s < 256 {
            (9, 400 + s as u32 - 144)
        } else if s < 280 {
            (7, s as u32 - 256)
        } else {
            (8, 192 + s as u32 - 280)
        };
        lit.set_code(s, code);
        s = s + 1;
    }
    let mut dist = HuffmanCodes::empty(30);
    let mut d: u16 = 0;
    while d < 30
        invariant
            d <= 30,
            dist.wf(),
            dist@.len() == 30,
            forall|t: int| 0 <= t < d ==> #[trigger] dist@[t] == (5u32, t as u32),
        decreases 30 - d,
    {
        dist.set_code(d, (5, d as u32));
        d = d + 1;
    }
    proof {
        assert(lit@ =~= fixed_lit_table());
        assert(dist@ =~= fixed_dist_table());
    }
    (lit, dist)
}

/// Appends the codes and extra bits of every symbol of `block`.
pub fn encode_symbols(sink: &mut BitSink, lit: &HuffmanCodes, dist: &HuffmanCodes, block: &[Symbol])
    requires
        old(sink).wf(),
        lit.wf(),
        dist.wf(),
        symbols_valid(block@),
        symbols_fit(lit@.len() as int, dist@.len() as int, block@),
    ensures
        final(sink).wf(),
        final(sink)@ == old(sink)@ + body_bits(lit@, dist@, block@),
{
    let mut i: usize = 0;
    while i < block.len()
        invariant
            sink.wf(),
            lit.wf(),
            dist.wf(),
            symbols_valid(block@),
            symbols_fit(lit@.len() as int, dist@.len() as int, block@),
            i <= block@.len(),
            sink@ == old(sink)@ + body_bits(lit@, dist@, block@.take(i as int)),
        decreases block@.len() - i,
    {
        let ghost before = sink@;
        match block[i] {
            Symbol::Literal(b) => {
                lit.encode_char(sink, b as u16);
            },
            Symbol::Pointer { length, distance } => {
                assert(block@[i as int] matches Symbol::Pointer { .. });
                let (code, bits, extra) = length_repr(length as u16 + 3);
                lit.encode_char(sink, code);
                sink.write_bits(bits as u32, extra as u32);
                let (dcode, dbits, dextra) = dist_repr(distance);
                dist.encode_char(sink, dcode as u16);
                sink.write_bits(dbits as u32, dextra as u32);
            },
        }
        proof {
            assert(block@.take(i as int + 1).drop_last() =~= block@.take(i as int));
            assert(sink@ =~= before + symbol_bits(lit@, dist@, block@[i as int]));
        }
        i = i + 1;
    }
    proof {
        assert(block@.take(block@.len() as int) =~= block@);
    }
}

/// Encodes `block` as a fixed-code block with BFINAL clear.
pub fn fixed_huffman_encode_block(block: &[Symbol]) -> (r: (Vec<u8>, (u32, u8)))
    requires
        symbols_valid(block@),
    ensures
        enc_wf(r),
        enc_bits(r) == fixed_block_bits(block@, false),
{
    let (lit, dist) = fixed_codes();
    let mut sink = BitSink::new();
    proof {
        lemma_exp2_small();
    }
    sink.write_bits(1, 0);
    sink.write_bits(2, 1);
    proof {
        lemma_symbols_fit_full(block@);
    }
    encode_symbols(&mut sink, &lit, &dist, block);
    lit.encode_char(&mut sink, 256);
    proof {
        assert(sink@ =~= fixed_block_bits(block@, false));
    }
    sink_into_block(sink)
}

} // verus!
