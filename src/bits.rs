//! Bit-level output: a sink that packs bits into bytes least significant bit
//! first, on top of `bitstream_io`'s little-endian bit writer.

use vstd::prelude::*;
use bitstream_io::{BitWrite, BitWriter, LittleEndian};

verus! {

/// `bitstream_io`'s little-endian bit writer over a growing `Vec<u8>`.
#[verifier::external_body]
pub struct LsbWriter {
    inner: BitWriter<Vec<u8>, LittleEndian>,
}

/// `2` to the power `n`.
pub open spec fn exp2(n: nat) -> nat
    decreases n,
{
    if n == 0 {
        1
    } else {
        2 * exp2((n - 1) as nat)
    }
}

/// The low `n` bits of `v`, least significant first.
pub open spec fn le_bits(v: nat, n: nat) -> Seq<bool>
    decreases n,
{
    if n == 0 {
        Seq::empty()
    } else {
        seq![v % 2 == 1] + le_bits(v / 2, (n - 1) as nat)
    }
}

/// The low `n` bits of `v`, most significant first (how Huffman codes travel).
pub open spec fn msb_bits(v: nat, n: nat) -> Seq<bool>
    decreases n,
{
    if n == 0 {
        Seq::empty()
    } else {
        msb_bits(v / 2, (n - 1) as nat).push(v % 2 == 1)
    }
}

/// `n` clear bits.
pub open spec fn zeros(n: nat) -> Seq<bool> {
    Seq::new(n, |i: int| false)
}

/// How many clear bits take a stream of `n` bits to a byte boundary.
pub open spec fn align_pad(n: nat) -> nat {
    ((8 - n % 8) % 8) as nat
}

/// The bytes whose bits, each byte least significant bit first, are `bits`.
pub open spec fn packs(bytes: Seq<u8>, bits: Seq<bool>) -> bool {
    &&& bits.len() == 8 * bytes.len()
    &&& forall|k: int|
        0 <= k < bytes.len() ==> le_bits(#[trigger] bytes[k] as nat, 8) == bits.subrange(
            8 * k,
            8 * k + 8,
        )
}

/// Every bit handed so far to a `bitstream_io` little-endian writer over a
/// `Vec<u8>`, in stream order: the bytes it has flushed and the partial byte
/// it still holds.
pub uninterp spec fn written_bits(w: LsbWriter) -> Seq<bool>;

/// Relies on `BitWriter::endian`: a fresh writer holds no bits.
#[verifier::external_body]
fn writer_new() -> (r: LsbWriter)
    ensures
        written_bits(r) == Seq::<bool>::empty(),
{
    LsbWriter { inner: BitWriter::endian(Vec::new(), LittleEndian) }
}

/// Relies on `BitWrite::write` of `BitWriter<Vec<u8>, LittleEndian>`: it
/// appends the low `bits` bits of `value`, least significant first. It fails
/// only for a value that does not fit in `bits` bits (excluded here) or when
/// the underlying writer fails, which a `Vec<u8>` never does.
#[verifier::external_body]
fn writer_write(w: &mut LsbWriter, bits: u32, value: u32)
    requires
        bits <= 32,
        value < exp2(bits as nat),
    ensures
        written_bits(*final(w)) == written_bits(*old(w)) + le_bits(value as nat, bits as nat),
{
    w.inner.write(bits, value).unwrap()
}

/// Relies on `BitWrite::write_bit` of `BitWriter<Vec<u8>, LittleEndian>`: it
/// appends one bit; it can fail only when the underlying `Vec<u8>` does,
/// which it never does.
#[verifier::external_body]
fn writer_write_bit(w: &mut LsbWriter, bit: bool)
    ensures
        written_bits(*final(w)) == written_bits(*old(w)).push(bit),
{
    w.inner.write_bit(bit).unwrap()
}

/// Relies on `BitWriter::into_writer`: on a byte-aligned writer nothing is
/// pending, and the inner `Vec<u8>` holds every written bit, packed least
/// significant bit first.
#[verifier::external_body]
fn writer_into_bytes(w: LsbWriter) -> (r: Vec<u8>)
    requires
        written_bits(w).len() % 8 == 0,
    ensures
        packs(r@, written_bits(w)),
{
    w.inner.into_writer()
}

/// An output stream of bits, packed into bytes least significant bit first.
pub struct BitSink {
    writer: LsbWriter,
    pending: u8,
}

impl BitSink {
    /// The bits written so far, in stream order.
    pub closed spec fn view(&self) -> Seq<bool> {
        written_bits(self.writer)
    }

    pub closed spec fn wf(&self) -> bool {
        self.pending as int == written_bits(self.writer).len() % 8
    }

    pub fn new() -> (r: Self)
        ensures
            r.wf(),
            r@ == Seq::<bool>::empty(),
    {
        BitSink { writer: writer_new(), pending: 0 }
    }

    /// Appends the low `n` bits of `v`, least significant first.
    pub fn write_bits(&mut self, n: u32, v: u32)
        requires
            old(self).wf(),
            n <= 32,
            v < exp2(n as nat),
        ensures
            final(self).wf(),
            final(self)@ == old(self)@ + le_bits(v as nat, n as nat),
    {
        writer_write(&mut self.writer, n, v);
        proof {
            lemma_le_bits_len(v as nat, n as nat);
        }
        self.pending = ((self.pending as u32 + n) % 8) as u8;
    }

    /// Appends one bit.
    pub fn write_bit(&mut self, bit: bool)
        requires
            old(self).wf(),
        ensures
            final(self).wf(),
            final(self)@ == old(self)@.push(bit),
    {
        writer_write_bit(&mut self.writer, bit);
        self.pending = (self.pending + 1) % 8;
    }

    /// Appends the low `n` bits of `code`, most significant first.
    pub fn write_code(&mut self, n: u32, code: u32)
        requires
            old(self).wf(),
            n <= 32,
        ensures
            final(self).wf(),
            final(self)@ == old(self)@ + msb_bits(code as nat, n as nat),
    {
        let ghost start = self@;
        let mut k: u32 = n;
        proof {
            lemma_msb_bits_len(code as nat / exp2(n as nat), 0);
            assert(start + msb_bits(code as nat / exp2(n as nat), 0) =~= start);
        }
        while k > 0
            invariant
                self.wf(),
                k <= n <= 32,
                self@ == start + msb_bits(code as nat / exp2(k as nat), (n - k) as nat),
            decreases k,
        {
            let bit = ((code >> (k - 1)) & 1) == 1;
            proof {
                let c = code as nat;
                let km = (k - 1) as nat;
                let q = c / exp2(km);
                lemma_exp2_pos(km);
                assert(c / exp2(k as nat) == q / 2) by {
                    vstd::arithmetic::div_mod::lemma_div_denominator(c as int, exp2(km) as int, 2);
                    assert(exp2(k as nat) == exp2(km) * 2);
                }
                lemma_shr_bit(code, (k - 1) as u32);
                assert(bit == (q % 2 == 1));
                assert(msb_bits(q, (n - k + 1) as nat) == msb_bits(q / 2, (n - k) as nat).push(
                    q % 2 == 1,
                ));
            }
            self.write_bit(bit);
            k = k - 1;
            proof {
                assert(self@ =~= start + msb_bits(code as nat / exp2(k as nat), (n - k) as nat));
            }
        }
        proof {
            assert(exp2(0) == 1);
            assert(code as nat / exp2(0) == code as nat);
        }
    }

    /// Pads with zero bits up to the next byte boundary.
    pub fn byte_align(&mut self)
        requires
            old(self).wf(),
        ensures
            final(self).wf(),
            final(self)@ == old(self)@ + zeros(align_pad(old(self)@.len())),
            final(self)@.len() % 8 == 0,
    {
        let ghost start = self@;
        while self.pending != 0
            invariant
                self.wf(),
                self@.len() >= start.len(),
                self@.len() - start.len() <= align_pad(start.len()),
                self@ == start + zeros((self@.len() - start.len()) as nat),
            decreases align_pad(start.len()) - (self@.len() - start.len()),
        {
            let ghost before = self@;
            self.write_bit(false);
            proof {
                assert(self@ =~= start + zeros((self@.len() - start.len()) as nat));
            }
        }
    }

    /// Aligns to a byte boundary and hands out the packed bytes.
    pub fn finish(self) -> (r: Vec<u8>)
        requires
            self.wf(),
        ensures
            packs(r@, self@ + zeros(align_pad(self@.len()))),
    {
        let mut s = self;
        s.byte_align();
        writer_into_bytes(s.writer)
    }

    /// Hands out the complete bytes written so far and the trailing
    /// `(bit_count, value)` of the unfinished byte, `bit_count < 8`.
    pub fn into_trailing(self) -> (r: (Vec<u8>, (u32, u8)))
        requires
            self.wf(),
        ensures
            r.1.0 < 8,
            r.1.0 == self@.len() % 8,
            packs(r.0@, self@.subrange(0, self@.len() - r.1.0)),
            (r.1.1 as nat) < exp2(r.1.0 as nat),
            le_bits(r.1.1 as nat, r.1.0 as nat) == self@.subrange(
                self@.len() - r.1.0,
                self@.len() as int,
            ),
    {
        let k = self.pending;
        let mut s = self;
        let ghost start = s@;
        s.byte_align();
        let ghost aligned = s@;
        let mut bytes = writer_into_bytes(s.writer);
        if k == 0 {
            proof {
                assert(aligned =~= start);
                assert(start.subrange(0, start.len() as int) =~= start);
                assert(start.subrange(start.len() as int, start.len() as int) =~= Seq::<
                    bool,
                >::empty());
            }
            (bytes, (0, 0))
        } else {
            proof {
                assert(aligned.len() > start.len());
            }
            let last = bytes.pop().unwrap();
            proof {
                let m = bytes@.len() as int;
                let full = start.len() - k as int;
                assert(aligned.len() == 8 * (m + 1));
                assert(full == 8 * m) by {
                    assert(start.len() % 8 == k as int);
                    assert(aligned.len() - start.len() < 8);
                }
                let tail = start.subrange(full, start.len() as int);
                assert(le_bits(last as nat, 8) == aligned.subrange(8 * m, 8 * m + 8));
                assert forall|j: int| 0 <= j < 8 implies #[trigger] le_bits(last as nat, 8)[j] == (
                if j < k { tail[j] } else { false }) by {
                    assert(aligned.subrange(8 * m, 8 * m + 8)[j] == aligned[8 * m + j]);
                    if j < k {
                        assert(aligned[8 * m + j] == aligned.subrange(0, start.len() as int)[8 * m
                            + j]);
                    }
                }
                lemma_exp2_small();
                lemma_le_bits_prefix_zero(last as nat, 8, k as nat);
                assert(le_bits(last as nat, k as nat) =~= tail);
                assert forall|q: int| 0 <= q < m implies le_bits(#[trigger] bytes@[q] as nat, 8)
                    == start.subrange(0, full).subrange(8 * q, 8 * q + 8) by {
                    assert(aligned.subrange(8 * q, 8 * q + 8) =~= start.subrange(0, full).subrange(
                        8 * q,
                        8 * q + 8,
                    )) by {
                        assert forall|j: int| 0 <= j < 8 implies #[trigger] aligned[8 * q + j] == start[8
                            * q + j] by {
                            assert(aligned.subrange(0, start.len() as int)[8 * q + j] == aligned[8
                                * q + j]);
                        }
                    }
                }
            }
            (bytes, (k as u32, last))
        }
    }
}

pub proof fn lemma_exp2_pos(n: nat)
    ensures
        exp2(n) > 0,
    decreases n,
{
    if n > 0 {
        lemma_exp2_pos((n - 1) as nat);
    }
}

pub proof fn lemma_le_bits_len(v: nat, n: nat)
    ensures
        le_bits(v, n).len() == n,
    decreases n,
{
    if n > 0 {
        lemma_le_bits_len(v / 2, (n - 1) as nat);
    }
}

pub proof fn lemma_msb_bits_len(v: nat, n: nat)
    ensures
        msb_bits(v, n).len() == n,
    decreases n,
{
    if n > 0 {
        lemma_msb_bits_len(v / 2, (n - 1) as nat);
    }
}

/// The powers of two up to sixteen bits.
pub proof fn lemma_exp2_small()
    ensures
        exp2(0) == 1,
        exp2(1) == 2,
        exp2(2) == 4,
        exp2(3) == 8,
        exp2(4) == 16,
        exp2(5) == 32,
        exp2(6) == 64,
        exp2(7) == 128,
        exp2(8) == 256,
        exp2(9) == 512,
        exp2(10) == 1024,
        exp2(11) == 2048,
        exp2(12) == 4096,
        exp2(13) == 8192,
        exp2(14) == 16384,
        exp2(15) == 32768,
        exp2(16) == 65536,
{
    reveal_with_fuel(exp2, 17);
}

/// `(x >> s) & 1` is bit `s` of `x`.
pub proof fn lemma_shr_bit(x: u32, s: u32)
    requires
        s < 32,
    ensures
        ((x >> s) & 1) == ((x as nat / exp2(s as nat)) % 2) as u32,
{
    vstd::bits::lemma_u32_shr_is_div(x, s);
    lemma_exp2_is_pow2(s as nat);
    let y = x >> s;
    assert((y & 1) == y % 2) by (bit_vector);
}

proof fn lemma_exp2_is_pow2(n: nat)
    ensures
        exp2(n) == vstd::arithmetic::power2::pow2(n),
    decreases n,
{
    if n > 0 {
        lemma_exp2_is_pow2((n - 1) as nat);
        vstd::arithmetic::power2::lemma_pow2_unfold(n);
    } else {
        vstd::arithmetic::power2::lemma2_to64();
    }
}

/// A byte whose bits from `k` upward are all clear is below `2^k`, and its
/// low `k` bits are the first `k` entries of its bit sequence.
proof fn lemma_le_bits_prefix_zero(v: nat, n: nat, k: nat)
    requires
        k <= n,
        v < exp2(n),
        forall|j: int| k <= j < n ==> !#[trigger] le_bits(v, n)[j],
    ensures
        v < exp2(k),
        le_bits(v, k) == le_bits(v, n).subrange(0, k as int),
    decreases k,
{
    lemma_le_bits_len(v, n);
    if k == 0 {
        lemma_le_bits_zero(v, n);
        assert(le_bits(v, 0) =~= le_bits(v, n).subrange(0, 0));
    } else {
        assert(v % 2 == (if le_bits(v, n)[0] { 1nat } else { 0 }));
        let r = le_bits(v / 2, (n - 1) as nat);
        assert forall|j: int| (k - 1) <= j < (n - 1) implies !#[trigger] r[j] by {
            assert(le_bits(v, n)[j + 1] == r[j]);
        }
        assert(v / 2 < exp2((n - 1) as nat));
        lemma_le_bits_prefix_zero(v / 2, (n - 1) as nat, (k - 1) as nat);
        assert(le_bits(v, k) =~= le_bits(v, n).subrange(0, k as int));
    }
}

/// A value whose bit sequence is all clear is zero.
proof fn lemma_le_bits_zero(v: nat, n: nat)
    requires
        v < exp2(n),
        forall|j: int| 0 <= j < n ==> !#[trigger] le_bits(v, n)[j],
    ensures
        v == 0,
    decreases n,
{
    lemma_le_bits_len(v, n);
    if n > 0 {
        let r = le_bits(v / 2, (n - 1) as nat);
        assert forall|j: int| 0 <= j < (n - 1) implies !#[trigger] r[j] by {
            assert(le_bits(v, n)[j + 1] == r[j]);
        }
        assert(!le_bits(v, n)[0]);
        lemma_le_bits_zero(v / 2, (n - 1) as nat);
    }
}

} // verus!
