//! The DEFLATE driver: LZ77 blocks, each Huffman coded, the last one final.

use vstd::prelude::*;
use crate::bits::{BitSink, packs, zeros, align_pad};
use crate::block::{
    enc_bits, enc_wf, fixed_block_bits, fixed_huffman_encode_block, set_bfinal, symbols_valid,
    write_block,
};
use crate::circular_buf::CircularBuf;
use crate::inflate::{inflate, lemma_deflate_round_trip};
use crate::dynamic::{dynamic_block_bits, dynamic_codes_ok, dynamic_huffman_encode_block, is_dynamic_block};
use crate::lz77::{MatchIndex, lz77_encode_block, lz77_state, status_symbols, buffers_ready};
use crate::symbol::{Symbol, Lz77Status, LOOKAHEAD_SIZE, WINDOW_SIZE, replay, stream_valid, lemma_replay_append, lemma_stream_valid_append};

verus! {

/// The most symbols the LZ77 stage puts in one block.
pub const BLKSIZE: usize = 65535;

/// The sequences of `s`, one after the other.
pub open spec fn concat<A>(s: Seq<Seq<A>>) -> Seq<A>
    decreases s.len(),
{
    if s.len() == 0 {
        Seq::empty()
    } else {
        concat(s.drop_last()) + s.last()
    }
}

/// `bits` encode the symbols `syms` as one DEFLATE block whose BFINAL is
/// `bfinal`, in no more bits than the fixed codes take.
pub open spec fn block_encoding(syms: Seq<Symbol>, bfinal: bool, bits: Seq<bool>) -> bool {
    &&& bits == fixed_block_bits(syms, bfinal) || is_dynamic_block(syms, bfinal, bits)
    &&& bits.len() <= fixed_block_bits(syms, bfinal).len()
}

/// `encs[i]` encodes the non-empty `blocks[i]`; only the last block has BFINAL set.
pub open spec fn deflate_blocks(blocks: Seq<Seq<Symbol>>, encs: Seq<Seq<bool>>) -> bool {
    &&& blocks.len() == encs.len()
    &&& forall|i: int|
        0 <= i < blocks.len() ==> #[trigger] blocks[i].len() > 0 && block_encoding(
            blocks[i],
            i == blocks.len() - 1,
            encs[i],
        )
}

/// `out` is a DEFLATE stream of `src`: blocks of symbols that decode to
/// `src`, each encoded and the last one final, packed into bytes.
pub open spec fn is_deflate_of(out: Seq<u8>, src: Seq<u8>, blocks: Seq<Seq<Symbol>>, encs: Seq<Seq<bool>>) -> bool {
    &&& blocks.len() >= 1
    &&& deflate_blocks(blocks, encs)
    &&& replay(Seq::empty(), concat(blocks)) == src
    &&& stream_valid(Seq::empty(), concat(blocks))
    &&& packs(out, concat(encs) + zeros(align_pad(concat(encs).len())))
}

/// A block encoded with BFINAL clear, once its first bit is set, encodes
/// it with BFINAL set.
proof fn lemma_block_encoding_final(syms: Seq<Symbol>, bits: Seq<bool>)
    requires
        block_encoding(syms, false, bits),
    ensures
        bits.len() > 0,
        block_encoding(syms, true, bits.update(0, true)),
{
    assert(fixed_block_bits(syms, false).update(0, true) =~= fixed_block_bits(syms, true));
    if bits == fixed_block_bits(syms, false) {
        assert(fixed_block_bits(syms, false).update(0, true) =~= fixed_block_bits(syms, true));
    } else {
        let (l, d, c) = choose|l: Seq<u32>, d: Seq<u32>, c: Seq<u32>|
            dynamic_codes_ok(l, d, c, syms) && bits == #[trigger] dynamic_block_bits(
                l,
                d,
                c,
                syms,
                false,
            );
        lemma_dynamic_final(l, d, c, syms);
    }
}

proof fn lemma_dynamic_final(l: Seq<u32>, d: Seq<u32>, c: Seq<u32>, syms: Seq<Symbol>)
    ensures
        dynamic_block_bits(l, d, c, syms, false).update(0, true) == dynamic_block_bits(
            l,
            d,
            c,
            syms,
            true,
        ),
{
    assert(dynamic_block_bits(l, d, c, syms, false).update(0, true) =~= dynamic_block_bits(
        l,
        d,
        c,
        syms,
        true,
    ));
}

/// Encodes one block of symbols with BFINAL clear, under fixed or dynamic
/// codes, whichever is shorter (fixed on a tie).
pub fn huffman_encode_block(block: &[Symbol]) -> (r: (Vec<u8>, (u32, u8)))
    requires
        symbols_valid(block@),
        block@.len() < u32::MAX,
    ensures
        enc_wf(r),
        block_encoding(block@, false, enc_bits(r)),
        enc_bits(r) != fixed_block_bits(block@, false) ==> enc_bits(r).len()
            < fixed_block_bits(block@, false).len(),
{
    let fixed = fixed_huffman_encode_block(block);
    match dynamic_huffman_encode_block(block) {
        Some(dynamic) => {
            proof {
                lemma_enc_bits_len(fixed);
                lemma_enc_bits_len(dynamic);
            }
            if dynamic.0.len() < fixed.0.len() || (dynamic.0.len() == fixed.0.len() && dynamic.1.0
                < fixed.1.0) {
                dynamic
            } else {
                fixed
            }
        },
        None => fixed,
    }
}

/// An encoded block stands for eight bits per byte plus its unfinished bits.
proof fn lemma_enc_bits_len(enc: (Vec<u8>, (u32, u8)))
    ensures
        enc_bits(enc).len() == 8 * enc.0@.len() + enc.1.0,
{
    crate::block::lemma_bytes_bits_len(enc.0@);
    crate::bits::lemma_le_bits_len(enc.1.1 as nat, enc.1.0 as nat);
}

/// Pointers produced by the LZ77 stage reach 1 to 32768 bytes back.
pub proof fn lemma_valid_stream_symbols(out: Seq<u8>, syms: Seq<Symbol>)
    requires
        stream_valid(out, syms),
    ensures
        symbols_valid(syms),
{
    assert forall|i: int| 0 <= i < syms.len() implies match #[trigger] syms[i] {
        Symbol::Literal(_) => true,
        Symbol::Pointer { length, distance } => 1 <= distance <= 32768,
    } by {
        assert(crate::symbol::symbol_valid_after(replay(out, syms.take(i)), syms[i]));
    }
}

/// Compresses `src` into a raw DEFLATE stream; empty input gives empty
/// output. A decoder gives back `src` from the stream.
pub fn deflate(src: &[u8]) -> (r: Vec<u8>)
    ensures
        src@.len() == 0 ==> r@.len() == 0,
        src@.len() > 0 ==> inflate(r@) == Some(src@),
        src@.len() > 0 ==> exists|blocks: Seq<Seq<Symbol>>, encs: Seq<Seq<bool>>|
            is_deflate_of(r@, src@, blocks, encs),
{
    if src.len() == 0 {
        return Vec::new();
    }
    let mut sink = BitSink::new();
    let mut window: CircularBuf<u8> = CircularBuf::with_capacity(WINDOW_SIZE);
    let mut lookahead: CircularBuf<u8> = CircularBuf::with_capacity(LOOKAHEAD_SIZE);
    let mut index = MatchIndex::new();
    let mut pos: usize = 0;
    let ghost mut blocks: Seq<Seq<Symbol>> = Seq::empty();
    let ghost mut encs: Seq<Seq<bool>> = Seq::empty();
    let mut done = false;
    proof {
        assert(src@.subrange(0, 0) =~= Seq::<u8>::empty());
        assert(src@.take(0) =~= Seq::<u8>::empty());
        assert(stream_valid(Seq::empty(), concat(blocks)));
    }
    while !done
        invariant
            sink.wf(),
            buffers_ready(window, lookahead),
            index.indexes(src@, crate::lz77::recorded(pos - lookahead@.len())),
            lz77_state(src@, pos as int, window@, lookahead@),
            src@.len() > 0,
            blocks.len() == encs.len(),
            sink@ == concat(encs),
            replay(Seq::empty(), concat(blocks)) == src@.take(pos - lookahead@.len()),
            stream_valid(Seq::empty(), concat(blocks)),
            forall|i: int|
                0 <= i < blocks.len() ==> #[trigger] blocks[i].len() > 0 && block_encoding(
                    blocks[i],
                    done && i == blocks.len() - 1,
                    encs[i],
                ),
            !done ==> pos - lookahead@.len() < src@.len(),
            done ==> pos - lookahead@.len() == src@.len() && blocks.len() >= 1,
        decreases src@.len() - (pos - lookahead@.len()) + (if done { 0int } else { 1int }),
    {
        let ghost c0 = pos - lookahead@.len();
        let ghost old_blocks = blocks;
        let ghost old_encs = encs;
        let status = lz77_encode_block(src, &mut pos, &mut window, &mut lookahead, &mut index, BLKSIZE);
        let ghost syms = status_symbols(status);
        proof {
            assert(src@.take(c0) == replay(Seq::empty(), concat(blocks)));
            lemma_replay_append(Seq::empty(), concat(blocks), syms);
            lemma_stream_valid_append(Seq::empty(), concat(blocks), syms);
            lemma_valid_stream_symbols(src@.take(c0), syms);
            assert(blocks.push(syms).drop_last() =~= blocks);
        }
        match status {
            Lz77Status::Normal(block) => {
                let enc = huffman_encode_block(&block);
                write_block(&mut sink, &enc);
                proof {
                    encs = encs.push(enc_bits(enc));
                }
            },
            Lz77Status::LastBlock(block) => {
                let mut enc = huffman_encode_block(&block);
                proof {
                    lemma_block_encoding_final(block@, enc_bits(enc));
                }
                set_bfinal(&mut enc);
                write_block(&mut sink, &enc);
                proof {
                    encs = encs.push(enc_bits(enc));
                }
                done = true;
            },
        }
        proof {
            blocks = blocks.push(syms);
            assert(blocks.drop_last() =~= old_blocks);
            assert(encs.drop_last() =~= old_encs);
            assert(concat(blocks) == concat(old_blocks) + syms);
            assert(concat(encs) == concat(old_encs) + encs.last());
            assert(src@.take(pos - lookahead@.len()) == replay(Seq::empty(), concat(blocks)));
        }
    }
    let r = sink.finish();
    proof {
        assert(src@.take(src@.len() as int) =~= src@);
        assert(deflate_blocks(blocks, encs));
        assert(is_deflate_of(r@, src@, blocks, encs));
        lemma_deflate_round_trip(r@, src@, blocks, encs);
    }
    r
}

} // verus!
