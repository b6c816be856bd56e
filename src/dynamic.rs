//! Dynamic-code DEFLATE blocks (RFC 1951, section 3.2.7): code lengths
//! from symbol frequencies, the run-length coded header, then the body.

use vstd::prelude::*;
use crate::bits::{BitSink, exp2, le_bits, lemma_exp2_small};
use crate::block::{
    symbols_fit,
    body_bits, code_of, bit_value, enc_bits, enc_wf, encode_symbols, sink_into_block,
    symbols_valid,
};
use crate::huffman::{
    HuffmanCodes, MAX_BITS, canon_table, count_len, first_code, lengths_cover, lengths_full,
    code_space,
    limited_codelens_from_freq,
};
use crate::symbol::{Symbol, dist_repr, length_repr, length_repr_spec, dist_repr_spec};

verus! {

/// The longest code of the code-length alphabet.
pub const MAX_CLEN_BITS: u32 = 7;

/// How many entries from `i` on equal `v`, at most `cap`.
pub open spec fn run_of(lens: Seq<u32>, i: int, v: u32, cap: nat) -> nat
    decreases cap,
{
    if cap == 0 || i < 0 || i >= lens.len() || lens[i] != v {
        0
    } else {
        1 + run_of(lens, i + 1, v, (cap - 1) as nat)
    }
}

/// How many lengths the header item at position `i` covers.
pub open spec fn rle_advance(lens: Seq<u32>, i: int) -> nat {
    let v = lens[i];
    if v == 0 {
        let r = run_of(lens, i, 0, 138);
        if r >= 3 {
            r
        } else {
            1
        }
    } else if i > 0 && lens[i - 1] == v {
        let r = run_of(lens, i, v, 6);
        if r >= 3 {
            r
        } else {
            1
        }
    } else {
        1
    }
}

/// The header item `(symbol, extra bit count, extra value)` at position `i`:
/// 18 for 11..=138 zeros, 17 for 3..=10 zeros, 16 for 3..=6 repeats of the
/// previous length, otherwise the length itself.
pub open spec fn rle_item(lens: Seq<u32>, i: int) -> (u8, u8, u8) {
    let v = lens[i];
    let r = rle_advance(lens, i);
    if v == 0 && r >= 11 {
        (18, 7, (r - 11) as u8)
    } else if v == 0 && r >= 3 {
        (17, 3, (r - 3) as u8)
    } else if v != 0 && r >= 3 {
        (16, 2, (r - 3) as u8)
    } else {
        (v as u8, 0, 0)
    }
}

/// The run-length coding of `lens` from position `i`, longest runs first.
pub open spec fn rle_from(lens: Seq<u32>, i: int) -> Seq<(u8, u8, u8)>
    decreases lens.len() - i,
    when 0 <= i
    via rle_from_decreases
{
    if i >= lens.len() {
        Seq::empty()
    } else {
        seq![rle_item(lens, i)] + rle_from(lens, i + rle_advance(lens, i))
    }
}

#[via_fn]
proof fn rle_from_decreases(lens: Seq<u32>, i: int) {
    if 0 <= i < lens.len() {
        lemma_rle_advance_bounds(lens, i);
    }
}

/// A run never reaches past the end.
pub proof fn lemma_run_of_bound(lens: Seq<u32>, i: int, v: u32, cap: nat)
    requires
        0 <= i <= lens.len(),
    ensures
        run_of(lens, i, v, cap) <= lens.len() - i,
        run_of(lens, i, v, cap) <= cap,
    decreases cap,
{
    if cap > 0 && i < lens.len() && lens[i] == v {
        lemma_run_of_bound(lens, i + 1, v, (cap - 1) as nat);
    }
}

/// A header item covers at least one length and stays inside the sequence.
pub proof fn lemma_rle_advance_bounds(lens: Seq<u32>, i: int)
    requires
        0 <= i < lens.len(),
    ensures
        1 <= rle_advance(lens, i) <= lens.len() - i,
{
    lemma_run_of_bound(lens, i, 0, 138);
    lemma_run_of_bound(lens, i, lens[i], 6);
}

/// The bits of header items under the code-length code `clen`.
pub open spec fn rle_bits(clen: Seq<(u32, u32)>, items: Seq<(u8, u8, u8)>) -> Seq<bool>
    decreases items.len(),
{
    if items.len() == 0 {
        Seq::empty()
    } else {
        rle_bits(clen, items.drop_last()) + code_of(clen[items.last().0 as int]) + le_bits(
            items.last().2 as nat,
            items.last().1 as nat,
        )
    }
}

/// The order in which the code-length code lengths are sent.
pub open spec fn clen_order() -> Seq<int> {
    seq![16, 17, 18, 0, 8, 7, 9, 6, 10, 5, 11, 4, 12, 3, 13, 2, 14, 1, 15]
}

/// How many code-length code lengths are sent: up to the last non-zero
/// one in sending order, and at least 4.
pub open spec fn clen_count(clen_lens: Seq<u32>, k: int) -> int
    decreases k,
{
    if k <= 4 {
        4
    } else if clen_lens[clen_order()[k - 1]] != 0 {
        k
    } else {
        clen_count(clen_lens, k - 1)
    }
}

/// The first `k` code-length code lengths in sending order, 3 bits each.
pub open spec fn clen_lens_bits(clen_lens: Seq<u32>, k: int) -> Seq<bool>
    decreases k,
{
    if k <= 0 {
        Seq::empty()
    } else {
        clen_lens_bits(clen_lens, k - 1) + le_bits(clen_lens[clen_order()[k - 1]] as nat, 3)
    }
}

/// The code of each symbol a block uses has a non-zero length.
pub open spec fn symbols_coded(lit_lens: Seq<u32>, dist_lens: Seq<u32>, syms: Seq<Symbol>) -> bool {
    forall|i: int|
        0 <= i < syms.len() ==> match #[trigger] syms[i] {
            Symbol::Literal(b) => lit_lens[b as int] > 0,
            Symbol::Pointer { length, distance } => {
                &&& lit_lens[length_repr_spec(length as nat + 3).0 as int] > 0
                &&& dist_lens[dist_repr_spec(distance as nat).0 as int] > 0
            },
        }
}

/// Code lengths that a decoder accepts and that cover everything sent:
/// 257..=286 literal/length and 1..=30 distance lengths, ending in a
/// non-zero length where more than the minimum is sent, each a valid code.
pub open spec fn dynamic_codes_ok(
    lit_lens: Seq<u32>,
    dist_lens: Seq<u32>,
    clen_lens: Seq<u32>,
    syms: Seq<Symbol>,
) -> bool {
    &&& 257 <= lit_lens.len() <= 286
    &&& 1 <= dist_lens.len() <= 30
    &&& clen_lens.len() == 19
    &&& lit_lens.len() > 257 ==> lit_lens.last() != 0
    &&& dist_lens.len() > 1 ==> dist_lens.last() != 0
    &&& lengths_full(lit_lens, MAX_BITS as nat)
    &&& lengths_full(dist_lens, MAX_BITS as nat)
    &&& lengths_full(clen_lens, MAX_BITS as nat)
    &&& forall|k: int| 0 <= k < 19 ==> #[trigger] clen_lens[k] <= MAX_CLEN_BITS
    &&& lit_lens[256] > 0
    &&& symbols_fit(lit_lens.len() as int, dist_lens.len() as int, syms)
    &&& symbols_coded(lit_lens, dist_lens, syms)
    &&& forall|j: int|
        0 <= j < rle_from(lit_lens + dist_lens, 0).len() ==> clen_lens[#[trigger] rle_from(
            lit_lens + dist_lens,
            0,
        )[j].0 as int] > 0
}

/// A block under dynamic codes: BFINAL, BTYPE = 10, HLIT, HDIST, HCLEN, the
/// code-length code lengths, the run-length coded lengths, the symbols and
/// the end of block.
pub open spec fn dynamic_block_bits(
    lit_lens: Seq<u32>,
    dist_lens: Seq<u32>,
    clen_lens: Seq<u32>,
    syms: Seq<Symbol>,
    bfinal: bool,
) -> Seq<bool> {
    let ncl = clen_count(clen_lens, 19);
    le_bits(bit_value(bfinal), 1) + le_bits(2, 2) + le_bits((lit_lens.len() - 257) as nat, 5)
        + le_bits((dist_lens.len() - 1) as nat, 5) + le_bits((ncl - 4) as nat, 4) + clen_lens_bits(
        clen_lens,
        ncl,
    ) + rle_bits(canon_table(clen_lens), rle_from(lit_lens + dist_lens, 0)) + body_bits(
        canon_table(lit_lens),
        canon_table(dist_lens),
        syms,
    ) + code_of(canon_table(lit_lens)[256])
}

/// `bits` are a dynamic block of `syms` under some acceptable code lengths.
pub open spec fn is_dynamic_block(syms: Seq<Symbol>, bfinal: bool, bits: Seq<bool>) -> bool {
    exists|lit_lens: Seq<u32>, dist_lens: Seq<u32>, clen_lens: Seq<u32>|
        dynamic_codes_ok(lit_lens, dist_lens, clen_lens, syms) && bits == #[trigger] dynamic_block_bits(
            lit_lens,
            dist_lens,
            clen_lens,
            syms,
            bfinal,
        )
}


/// How many entries of `lens` from `i` on equal `v`, at most `cap`.
fn run_length(lens: &Vec<u32>, i: usize, v: u32, cap: usize) -> (r: usize)
    requires
        i <= lens@.len(),
    ensures
        r == run_of(lens@, i as int, v, cap as nat),
{
    let mut k: usize = 0;
    while k < cap && k < lens.len() - i && lens[i + k] == v
        invariant
            i <= lens@.len(),
            k <= cap,
            k <= lens@.len() - i,
            run_of(lens@, i as int, v, cap as nat) == k + run_of(
                lens@,
                (i + k) as int,
                v,
                (cap - k) as nat,
            ),
        decreases cap - k,
    {
        k = k + 1;
    }
    k
}

/// The run-length coding of the code lengths, as sent in the header.
fn rle_code_lengths(lens: &Vec<u32>) -> (r: Vec<(u8, u8, u8)>)
    requires
        forall|i: int| 0 <= i < lens@.len() ==> #[trigger] lens@[i] <= MAX_BITS,
    ensures
        r@ == rle_from(lens@, 0),
        r@.len() <= lens@.len(),
        forall|j: int|
            0 <= j < r@.len() ==> (#[trigger] r@[j]).0 < 19 && r@[j].1 <= 7 && (r@[j].2 as nat)
                < exp2(r@[j].1 as nat),
{
    proof {
        lemma_exp2_small();
    }
    let mut out: Vec<(u8, u8, u8)> = Vec::new();
    let mut i: usize = 0;
    while i < lens.len()
        invariant
            i <= lens@.len(),
            forall|j: int| 0 <= j < lens@.len() ==> #[trigger] lens@[j] <= MAX_BITS,
            out@ + rle_from(lens@, i as int) == rle_from(lens@, 0),
            out@.len() <= i,
            forall|j: int|
                0 <= j < out@.len() ==> (#[trigger] out@[j]).0 < 19 && out@[j].1 <= 7 && (
                out@[j].2 as nat) < exp2(out@[j].1 as nat),
        decreases lens@.len() - i,
    {
        let v = lens[i];
        let ghost gi = i as int;
        proof {
            lemma_rle_advance_bounds(lens@, gi);
            lemma_exp2_small();
        }
        let (item, adv): ((u8, u8, u8), usize) = if v == 0 {
            let r = run_length(lens, i, 0, 138);
            proof {
                lemma_run_of_bound(lens@, gi, 0, 138);
            }
            if r >= 11 {
                ((18, 7, (r - 11) as u8), r)
            } else if r >= 3 {
                ((17, 3, (r - 3) as u8), r)
            } else {
                ((0, 0, 0), 1)
            }
        } else if i > 0 && lens[i - 1] == v {
            let r = run_length(lens, i, v, 6);
            proof {
                lemma_run_of_bound(lens@, gi, v, 6);
            }
            if r >= 3 {
                ((16, 2, (r - 3) as u8), r)
            } else {
                ((v as u8, 0, 0), 1)
            }
        } else {
            ((v as u8, 0, 0), 1)
        };
        proof {
            assert(item == rle_item(lens@, gi));
            assert(adv == rle_advance(lens@, gi));
            assert(rle_from(lens@, gi) == seq![item] + rle_from(lens@, gi + adv));
            assert(out@.push(item) + rle_from(lens@, gi + adv) =~= out@ + rle_from(lens@, gi));
        }
        out.push(item);
        i = i + adv;
    }
    proof {
        assert(out@ + rle_from(lens@, i as int) =~= out@);
    }
    out
}

/// The position in `0..19` of the `k`-th code-length code length sent.
fn clen_order_at(k: usize) -> (r: usize)
    requires
        k < 19,
    ensures
        r == clen_order()[k as int],
        r < 19,
{
    match k {
        0 => 16,
        1 => 17,
        2 => 18,
        3 => 0,
        4 => 8,
        5 => 7,
        6 => 9,
        7 => 6,
        8 => 10,
        9 => 5,
        10 => 11,
        11 => 4,
        12 => 12,
        13 => 3,
        14 => 13,
        15 => 2,
        16 => 14,
        17 => 1,
        _ => 15,
    }
}

/// The first `n` entries of `v`.
fn prefix(v: &Vec<u32>, n: usize) -> (r: Vec<u32>)
    requires
        n <= v@.len(),
    ensures
        r@ == v@.take(n as int),
{
    let mut r: Vec<u32> = Vec::new();
    let mut i: usize = 0;
    while i < n
        invariant
            i <= n <= v@.len(),
            r@ == v@.take(i as int),
        decreases n - i,
    {
        r.push(v[i]);
        i = i + 1;
        proof {
            assert(r@ =~= v@.take(i as int));
        }
    }
    r
}

/// `n` zeros.
fn zero_counts(n: usize) -> (r: Vec<u32>)
    ensures
        r@.len() == n,
        forall|i: int| 0 <= i < n ==> #[trigger] r@[i] == 0,
{
    let mut r: Vec<u32> = Vec::new();
    let mut i: usize = 0;
    while i < n
        invariant
            i <= n,
            r@.len() == i,
            forall|j: int| 0 <= j < i ==> #[trigger] r@[j] == 0,
        decreases n - i,
    {
        r.push(0);
        i = i + 1;
    }
    r
}


/// Where every entry with a positive count in `a` has one in `b`, symbols
/// coded under `a` are coded under `b`.
proof fn lemma_symbols_coded_mono(
    a_lit: Seq<u32>,
    a_dist: Seq<u32>,
    b_lit: Seq<u32>,
    b_dist: Seq<u32>,
    syms: Seq<Symbol>,
)
    requires
        symbols_coded(a_lit, a_dist, syms),
        symbols_fit(a_lit.len() as int, a_dist.len() as int, syms),
        forall|x: int| 0 <= x < a_lit.len() && #[trigger] a_lit[x] > 0 ==> b_lit[x] > 0,
        forall|x: int| 0 <= x < a_dist.len() && #[trigger] a_dist[x] > 0 ==> b_dist[x] > 0,
    ensures
        symbols_coded(b_lit, b_dist, syms),
{
    assert forall|i: int| 0 <= i < syms.len() implies match #[trigger] syms[i] {
        Symbol::Literal(b) => b_lit[b as int] > 0,
        Symbol::Pointer { length, distance } => {
            &&& b_lit[length_repr_spec(length as nat + 3).0 as int] > 0
            &&& b_dist[dist_repr_spec(distance as nat).0 as int] > 0
        },
    } by {
        match syms[i] {
            Symbol::Literal(b) => {
                assert(a_lit[b as int] > 0);
            },
            Symbol::Pointer { length, distance } => {
                assert(a_lit[length_repr_spec(length as nat + 3).0 as int] > 0);
                assert(a_dist[dist_repr_spec(distance as nat).0 as int] > 0);
            },
        }
    }
}

/// Codes with a non-zero length lie below the trimmed size.
proof fn lemma_symbols_trimmed(
    lit: Seq<u32>,
    dist: Seq<u32>,
    n_lit: int,
    n_dist: int,
    syms: Seq<Symbol>,
)
    requires
        symbols_coded(lit, dist, syms),
        symbols_fit(lit.len() as int, dist.len() as int, syms),
        0 <= n_lit <= lit.len(),
        0 <= n_dist <= dist.len(),
        forall|k: int| n_lit <= k < lit.len() ==> #[trigger] lit[k] == 0,
        forall|k: int| n_dist <= k < dist.len() ==> #[trigger] dist[k] == 0,
    ensures
        symbols_fit(n_lit, n_dist, syms),
        symbols_coded(lit.take(n_lit), dist.take(n_dist), syms),
{
    assert forall|i: int| 0 <= i < syms.len() implies match #[trigger] syms[i] {
        Symbol::Literal(b) => b < n_lit,
        Symbol::Pointer { length, distance } => {
            &&& length_repr_spec(length as nat + 3).0 < n_lit
            &&& dist_repr_spec(distance as nat).0 < n_dist
        },
    } by {
        match syms[i] {
            Symbol::Literal(b) => {
                assert(lit[b as int] > 0);
            },
            Symbol::Pointer { length, distance } => {
                assert(lit[length_repr_spec(length as nat + 3).0 as int] > 0);
                assert(dist[dist_repr_spec(distance as nat).0 as int] > 0);
            },
        }
    }
    assert forall|i: int| 0 <= i < syms.len() implies match #[trigger] syms[i] {
        Symbol::Literal(b) => lit.take(n_lit)[b as int] > 0,
        Symbol::Pointer { length, distance } => {
            &&& lit.take(n_lit)[length_repr_spec(length as nat + 3).0 as int] > 0
            &&& dist.take(n_dist)[dist_repr_spec(distance as nat).0 as int] > 0
        },
    } by {
        match syms[i] {
            Symbol::Literal(b) => {
                assert(lit[b as int] > 0);
            },
            Symbol::Pointer { length, distance } => {
                assert(lit[length_repr_spec(length as nat + 3).0 as int] > 0);
                assert(dist[dist_repr_spec(distance as nat).0 as int] > 0);
            },
        }
    }
}

/// Counts how often each literal/length and distance code occurs in
/// `block`, with one end of block; at least one distance code is counted.
fn count_frequencies(block: &[Symbol]) -> (r: (Vec<u32>, Vec<u32>))
    requires
        symbols_valid(block@),
        block@.len() < u32::MAX,
    ensures
        r.0@.len() == 286,
        r.1@.len() == 30,
        r.0@[256] > 0,
        symbols_coded(r.0@, r.1@, block@),
{
    proof {
        crate::block::lemma_symbols_fit_full(block@);
    }
    let mut lit_freq = zero_counts(286);
    let mut dist_freq = zero_counts(30);
    let mut i: usize = 0;
    proof {
        assert(block@.take(0) =~= Seq::<Symbol>::empty());
    }
    while i < block.len()
        invariant
            lit_freq@.len() == 286,
            dist_freq@.len() == 30,
            i <= block@.len() < u32::MAX,
            forall|x: int| 0 <= x < 286 ==> #[trigger] lit_freq@[x] <= i,
            forall|x: int| 0 <= x < 30 ==> #[trigger] dist_freq@[x] <= i,
            lit_freq@[256] == 0,
            symbols_valid(block@),
            symbols_fit(286, 30, block@),
            symbols_coded(lit_freq@, dist_freq@, block@.take(i as int)),
        decreases block@.len() - i,
    {
        let ghost old_lit = lit_freq@;
        let ghost old_dist = dist_freq@;
        match block[i] {
            Symbol::Literal(b) => {
                lit_freq.set(b as usize, lit_freq[b as usize] + 1);
            },
            Symbol::Pointer { length, distance } => {
                assert(block@[i as int] matches Symbol::Pointer { .. });
                let (c, _, _) = length_repr(length as u16 + 3);
                lit_freq.set(c as usize, lit_freq[c as usize] + 1);
                let (dc, _, _) = dist_repr(distance);
                dist_freq.set(dc as usize, dist_freq[dc as usize] + 1);
            },
        }
        proof {
            assert(block@.take(i as int + 1).drop_last() =~= block@.take(i as int));
            assert(symbols_fit(286, 30, block@.take(i as int))) by {
                assert forall|j: int| 0 <= j < i implies #[trigger] block@.take(i as int)[j] == block@[j] by {}
            }
            lemma_symbols_coded_mono(old_lit, old_dist, lit_freq@, dist_freq@, block@.take(i as int));
            let t = block@.take(i as int + 1);
            assert forall|j: int| 0 <= j < t.len() implies match #[trigger] t[j] {
                Symbol::Literal(b) => lit_freq@[b as int] > 0,
                Symbol::Pointer { length, distance } => {
                    &&& lit_freq@[length_repr_spec(length as nat + 3).0 as int] > 0
                    &&& dist_freq@[dist_repr_spec(distance as nat).0 as int] > 0
                },
            } by {
                if j < i {
                    assert(t[j] == block@.take(i as int)[j]);
                }
            }
        }
        i = i + 1;
    }
    proof {
        assert(block@.take(block@.len() as int) =~= block@);
    }
    let ghost before = lit_freq@;
    lit_freq.set(256, 1);
    proof {
        lemma_symbols_coded_mono(before, dist_freq@, lit_freq@, dist_freq@, block@);
    }
    // Always send at least one distance code, which some decoders expect.
    let mut any_dist = false;
    let mut x: usize = 0;
    while x < 30
        invariant
            x <= 30,
            dist_freq@.len() == 30,
        decreases 30 - x,
    {
        if dist_freq[x] > 0 {
            any_dist = true;
        }
        x = x + 1;
    }
    if !any_dist {
        let ghost before = dist_freq@;
        dist_freq.set(0, 1);
        proof {
            lemma_symbols_coded_mono(lit_freq@, before, lit_freq@, dist_freq@, block@);
        }
    }
    (lit_freq, dist_freq)
}


/// Full lengths up to `m` are full lengths up to any wider `w <= 15`.
proof fn lemma_valid_wider(lens: Seq<u32>, m: nat, w: nat)
    requires
        lengths_full(lens, m),
        1 <= m <= w <= 15,
    ensures
        lengths_full(lens, w),
    decreases w - m,
{
    if m < w {
        lemma_valid_wider(lens, m, (w - 1) as nat);
        let v = (w - 1) as nat;
        assert(count_len(lens, w) == 0) by {
            lemma_count_len_zero_above(lens, v, w);
        }
        assert(exp2(w) == 2 * exp2(v));
        assert(first_code(lens, w) == (first_code(lens, v) + count_len(lens, v)) * 2);
        assert forall|l: nat| 1 <= l <= w implies crate::huffman::first_code(lens, l)
            + #[trigger] count_len(lens, l) <= exp2(l) by {
            if l == w {
                assert(first_code(lens, v) + count_len(lens, v) <= exp2(v));
            }
        }
        if code_space(lens, v) == exp2(v) {
            assert(code_space(lens, w) == exp2(w));
        }
    }
}

/// No length above `m` occurs in lengths bounded by `m`.
proof fn lemma_count_len_zero_above(lens: Seq<u32>, m: nat, l: nat)
    requires
        forall|s: int| 0 <= s < lens.len() ==> #[trigger] lens[s] <= m,
        l > m,
    ensures
        count_len(lens, l) == 0,
    decreases lens.len(),
{
    if lens.len() > 0 {
        assert(lens[lens.len() - 1] <= m);
        lemma_count_len_zero_above(lens.drop_last(), m, l);
    }
}

/// The literal/length lengths followed by the distance lengths.
fn concat_lengths(a: &Vec<u32>, b: &Vec<u32>) -> (r: Vec<u32>)
    ensures
        r@ == a@ + b@,
{
    let mut all = prefix(a, a.len());
    proof {
        assert(a@.take(a@.len() as int) =~= a@);
    }
    let mut k: usize = 0;
    while k < b.len()
        invariant
            k <= b@.len(),
            all@ == a@ + b@.take(k as int),
        decreases b@.len() - k,
    {
        all.push(b[k]);
        k = k + 1;
        proof {
            assert(all@ =~= a@ + b@.take(k as int));
        }
    }
    proof {
        assert(b@.take(b@.len() as int) =~= b@);
    }
    all
}

/// How often each code-length symbol occurs among the header items.
fn count_items(items: &Vec<(u8, u8, u8)>) -> (r: Vec<u32>)
    requires
        items@.len() <= 316,
        forall|t: int| 0 <= t < items@.len() ==> (#[trigger] items@[t]).0 < 19,
    ensures
        r@.len() == 19,
        forall|t: int| 0 <= t < items@.len() ==> r@[(#[trigger] items@[t]).0 as int] > 0,
{
    let mut clen_freq = zero_counts(19);
    let mut j: usize = 0;
    while j < items.len()
        invariant
            j <= items@.len() <= 316,
            clen_freq@.len() == 19,
            forall|x: int| 0 <= x < 19 ==> #[trigger] clen_freq@[x] <= j,
            forall|t: int| 0 <= t < items@.len() ==> (#[trigger] items@[t]).0 < 19,
            forall|t: int| 0 <= t < j ==> clen_freq@[(#[trigger] items@[t]).0 as int] > 0,
        decreases items@.len() - j,
    {
        let sym = items[j].0 as usize;
        clen_freq.set(sym, clen_freq[sym] + 1);
        j = j + 1;
    }
    clen_freq
}

/// The header of a dynamic block with BFINAL clear, up to the block body.
pub open spec fn dynamic_header_bits(
    n_lit: nat,
    n_dist: nat,
    clen_lens: Seq<u32>,
    clen: Seq<(u32, u32)>,
    items: Seq<(u8, u8, u8)>,
) -> Seq<bool> {
    let ncl = clen_count(clen_lens, 19);
    le_bits(0, 1) + le_bits(2, 2) + le_bits((n_lit - 257) as nat, 5) + le_bits(
        (n_dist - 1) as nat,
        5,
    ) + le_bits((ncl - 4) as nat, 4) + clen_lens_bits(clen_lens, ncl) + rle_bits(clen, items)
}

/// Writes the header of a dynamic block with BFINAL clear.
fn write_dynamic_header(
    sink: &mut BitSink,
    n_lit: usize,
    n_dist: usize,
    clen_lens: &Vec<u32>,
    clen_codes: &HuffmanCodes,
    items: &Vec<(u8, u8, u8)>,
)
    requires
        old(sink).wf(),
        257 <= n_lit <= 286,
        1 <= n_dist <= 30,
        clen_lens@.len() == 19,
        forall|x: int| 0 <= x < 19 ==> #[trigger] clen_lens@[x] <= MAX_CLEN_BITS,
        clen_codes.is_canonical_for(clen_lens@),
        forall|t: int|
            0 <= t < items@.len() ==> (#[trigger] items@[t]).0 < 19 && items@[t].1 <= 7 && (
            items@[t].2 as nat) < exp2(items@[t].1 as nat),
    ensures
        final(sink).wf(),
        final(sink)@ == old(sink)@ + dynamic_header_bits(
            n_lit as nat,
            n_dist as nat,
            clen_lens@,
            clen_codes@,
            items@,
        ),
{
    proof {
        lemma_exp2_small();
    }
    let mut ncl: usize = 19;
    while ncl > 4 && clen_lens[clen_order_at(ncl - 1)] == 0
        invariant
            4 <= ncl <= 19,
            clen_lens@.len() == 19,
            clen_count(clen_lens@, 19) == clen_count(clen_lens@, ncl as int),
        decreases ncl,
    {
        ncl = ncl - 1;
    }
    proof {
        assert(clen_count(clen_lens@, ncl as int) == ncl as int);
    }
    sink.write_bits(1, 0);
    sink.write_bits(2, 2);
    sink.write_bits(5, (n_lit - 257) as u32);
    sink.write_bits(5, (n_dist - 1) as u32);
    sink.write_bits(4, (ncl - 4) as u32);
    let ghost head = sink@;
    let mut k: usize = 0;
    while k < ncl
        invariant
            k <= ncl <= 19,
            clen_lens@.len() == 19,
            forall|x: int| 0 <= x < 19 ==> #[trigger] clen_lens@[x] <= MAX_CLEN_BITS,
            sink.wf(),
            sink@ == head + clen_lens_bits(clen_lens@, k as int),
        decreases ncl - k,
    {
        let l = clen_lens[clen_order_at(k)];
        proof {
            lemma_exp2_small();
        }
        sink.write_bits(3, l);
        k = k + 1;
        proof {
            assert(sink@ =~= head + clen_lens_bits(clen_lens@, k as int));
        }
    }
    let ghost head2 = sink@;
    let mut j: usize = 0;
    proof {
        assert(items@.take(0) =~= Seq::<(u8, u8, u8)>::empty());
        assert(head2 + rle_bits(clen_codes@, items@.take(0)) =~= head2);
    }
    while j < items.len()
        invariant
            j <= items@.len(),
            sink.wf(),
            clen_codes.is_canonical_for(clen_lens@),
            clen_lens@.len() == 19,
            forall|t: int|
                0 <= t < items@.len() ==> (#[trigger] items@[t]).0 < 19 && items@[t].1 <= 7 && (
                items@[t].2 as nat) < exp2(items@[t].1 as nat),
            sink@ == head2 + rle_bits(clen_codes@, items@.take(j as int)),
        decreases items@.len() - j,
    {
        let (sym, nbits, extra) = items[j];
        proof {
            assert(items@[j as int].0 < 19);
        }
        clen_codes.encode_char(sink, sym as u16);
        sink.write_bits(nbits as u32, extra as u32);
        j = j + 1;
        proof {
            assert(items@.take(j as int).drop_last() =~= items@.take(j as int - 1));
            assert(sink@ =~= head2 + rle_bits(clen_codes@, items@.take(j as int)));
        }
    }
    proof {
        assert(items@.take(items@.len() as int) =~= items@);
        assert(sink@ =~= old(sink)@ + dynamic_header_bits(
            n_lit as nat,
            n_dist as nat,
            clen_lens@,
            clen_codes@,
            items@,
        ));
    }
}

/// Encodes `block` as a dynamic-code block with BFINAL clear; `None` where
/// the computed code lengths do not form codes a decoder accepts.
pub fn dynamic_huffman_encode_block(block: &[Symbol]) -> (r: Option<(Vec<u8>, (u32, u8))>)
    requires
        symbols_valid(block@),
        block@.len() < u32::MAX,
    ensures
        r is Some,
        r matches Some(e) ==> enc_wf(e) && is_dynamic_block(block@, false, enc_bits(e)),
{
    proof {
        lemma_exp2_small();
        crate::block::lemma_symbols_fit_full(block@);
    }
    let (lit_freq, dist_freq) = count_frequencies(block);
    proof {
        crate::huffman::lemma_used_count_le_len(lit_freq@);
        crate::huffman::lemma_used_count_le_len(dist_freq@);
    }
    let lit_lens = limited_codelens_from_freq(&lit_freq, MAX_BITS);
    let dist_lens = limited_codelens_from_freq(&dist_freq, MAX_BITS);
    proof {
        assert forall|x: int| 0 <= x < 286 && #[trigger] lit_freq@[x] > 0 implies lit_lens@[x] > 0 by {}
        assert forall|x: int| 0 <= x < 30 && #[trigger] dist_freq@[x] > 0 implies dist_lens@[x] > 0 by {}
        lemma_symbols_coded_mono(lit_freq@, dist_freq@, lit_lens@, dist_lens@, block@);
        assert(lit_lens@[256] > 0);
    }
    // Drop unused codes at the top of each alphabet.
    let mut n_lit: usize = 286;
    while n_lit > 257 && lit_lens[n_lit - 1] == 0
        invariant
            257 <= n_lit <= 286,
            lit_lens@.len() == 286,
            forall|k: int| n_lit <= k < 286 ==> #[trigger] lit_lens@[k] == 0,
        decreases n_lit,
    {
        n_lit = n_lit - 1;
    }
    let mut n_dist: usize = 30;
    while n_dist > 1 && dist_lens[n_dist - 1] == 0
        invariant
            1 <= n_dist <= 30,
            dist_lens@.len() == 30,
            forall|k: int| n_dist <= k < 30 ==> #[trigger] dist_lens@[k] == 0,
        decreases n_dist,
    {
        n_dist = n_dist - 1;
    }
    let lit_trim = prefix(&lit_lens, n_lit);
    let dist_trim = prefix(&dist_lens, n_dist);
    proof {
        crate::huffman::lemma_trim_valid(lit_lens@, n_lit as int, MAX_BITS as nat);
        crate::huffman::lemma_trim_valid(dist_lens@, n_dist as int, MAX_BITS as nat);
        lemma_symbols_trimmed(lit_lens@, dist_lens@, n_lit as int, n_dist as int, block@);
    }
    // The code lengths as sent, run-length coded.
    proof {
        assert forall|i: int| 0 <= i < lit_trim@.len() implies #[trigger] lit_trim@[i] <= MAX_BITS by {
            assert(lit_freq@[i] == 0 || lit_freq@[i] > 0);
        }
        assert forall|i: int| 0 <= i < dist_trim@.len() implies #[trigger] dist_trim@[i] <= MAX_BITS by {
            assert(dist_freq@[i] == 0 || dist_freq@[i] > 0);
        }
    }
    let all = concat_lengths(&lit_trim, &dist_trim);
    let items = rle_code_lengths(&all);
    // Code lengths for the code-length alphabet.
    let clen_freq = count_items(&items);
    proof {
        crate::huffman::lemma_used_count_le_len(clen_freq@);
    }
    let clen_lens = limited_codelens_from_freq(&clen_freq, MAX_CLEN_BITS);
    proof {
        assert forall|x: int| 0 <= x < 19 implies #[trigger] clen_lens@[x] <= MAX_CLEN_BITS by {
            assert(clen_freq@[x] == 0 || clen_freq@[x] > 0);
        }
        lemma_valid_wider(clen_lens@, MAX_CLEN_BITS as nat, MAX_BITS as nat);
        crate::huffman::lemma_full_valid(clen_lens@, MAX_BITS as nat);
    }
    let lit_codes = match HuffmanCodes::build_from_codelens(&lit_trim) {
        Ok(c) => c,
        Err(_) => {
            return None;
        },
    };
    let dist_codes = match HuffmanCodes::build_from_codelens(&dist_trim) {
        Ok(c) => c,
        Err(_) => {
            return None;
        },
    };
    let clen_codes = match HuffmanCodes::build_from_codelens(&clen_lens) {
        Ok(c) => c,
        Err(_) => {
            return None;
        },
    };
    let mut sink = BitSink::new();
    write_dynamic_header(&mut sink, n_lit, n_dist, &clen_lens, &clen_codes, &items);
    // Body and end of block.
    encode_symbols(&mut sink, &lit_codes, &dist_codes, block);
    lit_codes.encode_char(&mut sink, 256);
    let enc = sink_into_block(sink);
    proof {
        let ll = lit_trim@;
        let dl = dist_trim@;
        let cl = clen_lens@;
        assert(all@ == ll + dl);
        assert(ll[256] == lit_lens@[256]);
        assert forall|t: int| 0 <= t < rle_from(ll + dl, 0).len() implies cl[#[trigger] rle_from(
            ll + dl,
            0,
        )[t].0 as int] > 0 by {
            assert(items@[t] == rle_from(ll + dl, 0)[t]);
            assert(clen_freq@[items@[t].0 as int] > 0);
        }
        assert(dynamic_codes_ok(ll, dl, cl, block@));
        assert(enc_bits(enc) =~= dynamic_block_bits(ll, dl, cl, block@, false));
    }
    Some(enc)
}

} // verus!
