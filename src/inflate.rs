//! What a DEFLATE decoder makes of a stream (RFC 1951, section 3.2), as
//! specification, and the proof that it gives back what the encoder was given.

use vstd::prelude::*;
use crate::bits::{exp2, le_bits, msb_bits, zeros, align_pad, lemma_le_bits_len, lemma_msb_bits_len};
use crate::block::{
    bytes_bits,
    body_bits, code_of, symbol_bits, symbols_fit, symbols_valid, fixed_lit_table, fixed_dist_table,
    fixed_lit_code, fixed_block_bits, bit_value, lemma_symbols_fit_full,
};
use crate::dynamic::{
    dynamic_block_bits, dynamic_codes_ok, is_dynamic_block, rle_advance, rle_bits, rle_from, rle_item,
    run_of, lemma_rle_advance_bounds, lemma_run_of_bound, clen_count, clen_lens_bits, clen_order,
};
use crate::huffman::{
    MAX_BITS, canon_table, codes_prefix_free, is_prefix, lengths_full, lemma_canon_table_prefix_free,
    lemma_msb_injective, lemma_msb_take,
};
use crate::deflate::concat;
use crate::symbol::{
    replay,
    Symbol, length_base, length_extra_bits, dist_base, dist_extra_bits, length_repr_spec,
    dist_repr_spec, lemma_length_code_range, lemma_dist_code_range,
};

verus! {

/// The number whose bits, least significant first, are `bits`.
pub open spec fn le_value(bits: Seq<bool>) -> nat
    decreases bits.len(),
{
    if bits.len() == 0 {
        0
    } else {
        (if bits[0] { 1nat } else { 0 }) + 2 * le_value(bits.drop_first())
    }
}

/// The symbol of `table` whose code begins `bits`, if there is one.
pub open spec fn decode_code(table: Seq<(u32, u32)>, bits: Seq<bool>) -> Option<int> {
    if exists|s: int|
        0 <= s < table.len() && table[s].0 > 0 && #[trigger] is_prefix(code_of(table[s]), bits) {
        Some(
            choose|s: int|
                0 <= s < table.len() && table[s].0 > 0 && #[trigger] is_prefix(
                    code_of(table[s]),
                    bits,
                ),
        )
    } else {
        None
    }
}

/// Decodes a block body up to and including the end-of-block code, reading
/// at most `fuel` codes: the symbols and how many bits they took.
pub open spec fn decode_body(
    lit: Seq<(u32, u32)>,
    dist: Seq<(u32, u32)>,
    bits: Seq<bool>,
    fuel: nat,
) -> Option<(Seq<Symbol>, nat)>
    decreases fuel,
{
    if fuel == 0 {
        None
    } else {
        match decode_code(lit, bits) {
            None => None,
            Some(c) => {
                let k = lit[c].0 as nat;
                let after = bits.skip(k as int);
                if c < 256 {
                    match decode_body(lit, dist, after, (fuel - 1) as nat) {
                        Some((syms, used)) => Some((seq![Symbol::Literal(c as u8)] + syms, k + used)),
                        None => None,
                    }
                } else if c == 256 {
                    Some((Seq::empty(), k))
                } else if c <= 285 {
                    let e = length_extra_bits(c) as nat;
                    let len = length_base(c) + le_value(after.take(e as int));
                    let dbits = after.skip(e as int);
                    match decode_code(dist, dbits) {
                        None => None,
                        Some(d) => {
                            let dk = dist[d].0 as nat;
                            let de = dist_extra_bits(d) as nat;
                            let dd = dist_base(d) + le_value(dbits.skip(dk as int).take(de as int));
                            let sym = Symbol::Pointer { length: (len - 3) as u8, distance: dd as u16 };
                            let used = k + e + dk + de;
                            match decode_body(lit, dist, bits.skip(used as int), (fuel - 1) as nat) {
                                Some((syms, u2)) => Some((seq![sym] + syms, used + u2)),
                                None => None,
                            }
                        },
                    }
                } else {
                    None
                }
            },
        }
    }
}

/// Reading back the low `n` bits of `v` gives `v`.
pub proof fn lemma_le_value_bits(v: nat, n: nat)
    requires
        v < exp2(n),
    ensures
        le_value(le_bits(v, n)) == v,
    decreases n,
{
    lemma_le_bits_len(v, n);
    if n > 0 {
        assert(le_bits(v, n).drop_first() =~= le_bits(v / 2, (n - 1) as nat));
        lemma_le_value_bits(v / 2, (n - 1) as nat);
    }
}

/// Two prefixes of one sequence: the shorter is a prefix of the longer.
proof fn lemma_prefixes_related(a: Seq<bool>, b: Seq<bool>, x: Seq<bool>)
    requires
        is_prefix(a, x),
        is_prefix(b, x),
        a.len() <= b.len(),
    ensures
        is_prefix(a, b),
{
    assert(b.take(a.len() as int) =~= x.take(a.len() as int));
}

/// Under a prefix-free code, the code of `c` followed by anything decodes to `c`.
pub proof fn lemma_decode_code(table: Seq<(u32, u32)>, c: int, rest: Seq<bool>)
    requires
        codes_prefix_free(table),
        0 <= c < table.len(),
        table[c].0 > 0,
    ensures
        decode_code(table, code_of(table[c]) + rest) == Some(c),
{
    let bits = code_of(table[c]) + rest;
    assert(bits.take(code_of(table[c]).len() as int) =~= code_of(table[c]));
    assert(is_prefix(code_of(table[c]), bits));
    let s = choose|s: int|
        0 <= s < table.len() && table[s].0 > 0 && #[trigger] is_prefix(code_of(table[s]), bits);
    if s != c {
        if code_of(table[s]).len() <= code_of(table[c]).len() {
            lemma_prefixes_related(code_of(table[s]), code_of(table[c]), bits);
            assert(!is_prefix(
                msb_bits(table[s].1 as nat, table[s].0 as nat),
                msb_bits(table[c].1 as nat, table[c].0 as nat),
            ));
        } else {
            lemma_prefixes_related(code_of(table[c]), code_of(table[s]), bits);
            assert(!is_prefix(
                msb_bits(table[c].1 as nat, table[c].0 as nat),
                msb_bits(table[s].1 as nat, table[s].0 as nat),
            ));
        }
    }
}

/// The body bits of a run, split after its first symbol.
proof fn lemma_body_bits_first(lit: Seq<(u32, u32)>, dist: Seq<(u32, u32)>, syms: Seq<Symbol>)
    requires
        syms.len() > 0,
    ensures
        body_bits(lit, dist, syms) == symbol_bits(lit, dist, syms[0]) + body_bits(
            lit,
            dist,
            syms.drop_first(),
        ),
    decreases syms.len(),
{
    if syms.len() == 1 {
        assert(syms.drop_last() =~= Seq::<Symbol>::empty());
        assert(syms.drop_first() =~= Seq::<Symbol>::empty());
        assert(body_bits(lit, dist, syms) =~= symbol_bits(lit, dist, syms[0]) + body_bits(
            lit,
            dist,
            syms.drop_first(),
        ));
    } else {
        lemma_body_bits_first(lit, dist, syms.drop_last());
        assert(syms.drop_last().drop_first() =~= syms.drop_first().drop_last());
        assert(syms.drop_first().last() == syms.last());
        assert(body_bits(lit, dist, syms) =~= symbol_bits(lit, dist, syms[0]) + body_bits(
            lit,
            dist,
            syms.drop_first(),
        ));
    }
}

/// Code tables a block body can be decoded with: prefix-free codes, an end
/// of block code, and a code for every symbol the body uses.
pub open spec fn tables_decode(lit: Seq<(u32, u32)>, dist: Seq<(u32, u32)>, syms: Seq<Symbol>) -> bool {
    &&& codes_prefix_free(lit)
    &&& codes_prefix_free(dist)
    &&& 256 < lit.len() <= 288
    &&& lit[256].0 > 0
    &&& symbols_valid(syms)
    &&& symbols_fit(lit.len() as int, dist.len() as int, syms)
    &&& forall|i: int|
        0 <= i < syms.len() ==> match #[trigger] syms[i] {
            Symbol::Literal(b) => lit[b as int].0 > 0,
            Symbol::Pointer { length, distance } => {
                &&& lit[length_repr_spec(length as nat + 3).0 as int].0 > 0
                &&& dist[dist_repr_spec(distance as nat).0 as int].0 > 0
            },
        }
}

/// Tables that decode a run decode the run without its first symbol.
proof fn lemma_tables_decode_tail(lit: Seq<(u32, u32)>, dist: Seq<(u32, u32)>, syms: Seq<Symbol>)
    requires
        tables_decode(lit, dist, syms),
        syms.len() > 0,
    ensures
        tables_decode(lit, dist, syms.drop_first()),
{
    let tail = syms.drop_first();
    assert forall|i: int| 0 <= i < tail.len() implies match #[trigger] tail[i] {
        Symbol::Literal(_) => true,
        Symbol::Pointer { length, distance } => 1 <= distance <= 32768,
    } by {
        assert(tail[i] == syms[i + 1]);
    }
    assert forall|i: int| 0 <= i < tail.len() implies match #[trigger] tail[i] {
        Symbol::Literal(b) => b < lit.len(),
        Symbol::Pointer { length, distance } => {
            &&& length_repr_spec(length as nat + 3).0 < lit.len()
            &&& dist_repr_spec(distance as nat).0 < dist.len()
        },
    } by {
        assert(tail[i] == syms[i + 1]);
    }
    assert forall|i: int| 0 <= i < tail.len() implies match #[trigger] tail[i] {
        Symbol::Literal(b) => lit[b as int].0 > 0,
        Symbol::Pointer { length, distance } => {
            &&& lit[length_repr_spec(length as nat + 3).0 as int].0 > 0
            &&& dist[dist_repr_spec(distance as nat).0 as int].0 > 0
        },
    } by {
        assert(tail[i] == syms[i + 1]);
    }
}

/// Decoding one symbol's bits, then the rest.
proof fn lemma_decode_symbol(
    lit: Seq<(u32, u32)>,
    dist: Seq<(u32, u32)>,
    syms: Seq<Symbol>,
    more: Seq<bool>,
    fuel: nat,
)
    requires
        tables_decode(lit, dist, syms),
        syms.len() > 0,
    ensures
        decode_body(lit, dist, symbol_bits(lit, dist, syms[0]) + more, fuel + 1) == match decode_body(
            lit,
            dist,
            more,
            fuel,
        ) {
            Some((rest_syms, u)) => Some(
                (seq![syms[0]] + rest_syms, symbol_bits(lit, dist, syms[0]).len() + u),
            ),
            None => None,
        },
{
    let s = syms[0];
    let bits = symbol_bits(lit, dist, s) + more;
    assert(match syms[0] {
        Symbol::Literal(_) => true,
        Symbol::Pointer { length, distance } => 1 <= distance <= 32768,
    });
    match s {
        Symbol::Literal(b) => {
            let c = b as int;
            let k = lit[c].0 as nat;
            lemma_msb_bits_len(lit[c].1 as nat, k);
            lemma_decode_code(lit, c, more);
            assert(bits.skip(k as int) =~= more);
        },
        Symbol::Pointer { length, distance } => {
            let l = length_repr_spec(length as nat + 3);
            let d = dist_repr_spec(distance as nat);
            lemma_length_code_range(length as nat + 3);
            lemma_dist_code_range(distance as nat);
            let c = l.0 as int;
            let k = lit[c].0 as nat;
            let dc = d.0 as int;
            let dk = dist[dc].0 as nat;
            let e = l.1 as nat;
            let de = d.1 as nat;
            lemma_msb_bits_len(lit[c].1 as nat, k);
            lemma_msb_bits_len(dist[dc].1 as nat, dk);
            lemma_le_bits_len(l.2 as nat, e);
            lemma_le_bits_len(d.2 as nat, de);
            let lx = le_bits(l.2 as nat, e);
            let dx = le_bits(d.2 as nat, de);
            let after = lx + code_of(dist[dc]) + dx + more;
            assert(bits =~= code_of(lit[c]) + after);
            lemma_decode_code(lit, c, after);
            assert(bits.skip(k as int) =~= after);
            assert(after.take(e as int) =~= lx);
            lemma_le_value_bits(l.2 as nat, e);
            let dbits = after.skip(e as int);
            assert(dbits =~= code_of(dist[dc]) + (dx + more));
            lemma_decode_code(dist, dc, dx + more);
            assert(dbits.skip(dk as int).take(de as int) =~= dx);
            lemma_le_value_bits(d.2 as nat, de);
            let used = k + e + dk + de;
            assert(bits.skip(used as int) =~= more);
        },
    }
}

/// Decoding the body of a block, followed by anything, gives back its
/// symbols and stops right after the end-of-block code.
#[verifier::rlimit(60)]
pub proof fn lemma_body_round_trip(
    lit: Seq<(u32, u32)>,
    dist: Seq<(u32, u32)>,
    syms: Seq<Symbol>,
    rest: Seq<bool>,
)
    requires
        tables_decode(lit, dist, syms),
    ensures
        decode_body(
            lit,
            dist,
            body_bits(lit, dist, syms) + code_of(lit[256]) + rest,
            syms.len() + 1,
        ) == Some((syms, (body_bits(lit, dist, syms) + code_of(lit[256])).len())),
    decreases syms.len(),
{
    let eob = code_of(lit[256]);
    lemma_msb_bits_len(lit[256].1 as nat, lit[256].0 as nat);
    if syms.len() == 0 {
        assert(body_bits(lit, dist, syms) =~= Seq::<bool>::empty());
        assert(body_bits(lit, dist, syms) + eob + rest =~= eob + rest);
        lemma_decode_code(lit, 256, rest);
    } else {
        let tail = syms.drop_first();
        lemma_tables_decode_tail(lit, dist, syms);
        lemma_body_round_trip(lit, dist, tail, rest);
        lemma_body_bits_first(lit, dist, syms);
        let more = body_bits(lit, dist, tail) + eob + rest;
        assert(body_bits(lit, dist, syms) + eob + rest =~= symbol_bits(lit, dist, syms[0]) + more);
        lemma_decode_symbol(lit, dist, syms, more, tail.len() + 1);
        assert(seq![syms[0]] + tail =~= syms);
    }
}

/// A code of length `ls` is not a prefix of one of length `lu >= ls` whose
/// top `ls` bits differ from it.
proof fn lemma_not_prefix_by_top(cs: nat, ls: nat, cu: nat, lu: nat)
    requires
        ls <= lu,
        cs < exp2(ls),
        cu < exp2(lu),
        cu / exp2((lu - ls) as nat) != cs,
    ensures
        !is_prefix(msb_bits(cs, ls), msb_bits(cu, lu)),
{
    lemma_msb_bits_len(cs, ls);
    lemma_msb_bits_len(cu, lu);
    if is_prefix(msb_bits(cs, ls), msb_bits(cu, lu)) {
        lemma_msb_take(cu, lu, ls);
        let p = exp2((lu - ls) as nat);
        crate::bits::lemma_exp2_pos((lu - ls) as nat);
        crate::huffman::lemma_exp2_add(ls, (lu - ls) as nat);
        vstd::arithmetic::div_mod::lemma_multiply_divide_lt(cu as int, p as int, exp2(ls) as int);
        lemma_msb_injective(cu / p, cs, ls);
    }
}

/// Fixed codes of different symbols differ in the top bits of the longer.
proof fn lemma_fixed_tops(s: int, u: int)
    requires
        0 <= s < 288,
        0 <= u < 288,
        s != u,
        fixed_lit_code(s).0 <= fixed_lit_code(u).0,
    ensures
        (fixed_lit_code(s).1 as nat) < exp2(fixed_lit_code(s).0 as nat),
        (fixed_lit_code(u).1 as nat) < exp2(fixed_lit_code(u).0 as nat),
        fixed_lit_code(u).1 as nat / exp2((fixed_lit_code(u).0 - fixed_lit_code(s).0) as nat)
            != fixed_lit_code(s).1 as nat,
{
    crate::bits::lemma_exp2_small();
    let ls = fixed_lit_code(s).0 as int;
    let lu = fixed_lit_code(u).0 as int;
    let cs = fixed_lit_code(s).1 as int;
    let cu = fixed_lit_code(u).1 as int;
    let gs = if s < 144 { 0int } else if s < 256 { 1 } else if s < 280 { 2 } else { 3 };
    let gu = if u < 144 { 0int } else if u < 256 { 1 } else if u < 280 { 2 } else { 3 };
    assert(gs == 0 ==> ls == 8 && cs == 48 + s);
    assert(gs == 1 ==> ls == 9 && cs == 400 + s - 144);
    assert(gs == 2 ==> ls == 7 && cs == s - 256);
    assert(gs == 3 ==> ls == 8 && cs == 192 + s - 280);
    assert(gu == 0 ==> lu == 8 && cu == 48 + u);
    assert(gu == 1 ==> lu == 9 && cu == 400 + u - 144);
    assert(gu == 2 ==> lu == 7 && cu == u - 256);
    assert(gu == 3 ==> lu == 8 && cu == 192 + u - 280);
    if lu == ls {
        assert(exp2(0) == 1);
        assert(cu / 1 == cu) by (nonlinear_arith);
        assert(cu != cs);
    } else if lu == ls + 1 {
        assert(exp2(1) == 2);
        if ls == 7 {
            assert(cs <= 23 && cu >= 48);
            assert(cu / 2 >= 24);
        } else {
            assert(cs <= 199 && cu >= 400);
            assert(cu / 2 >= 200);
        }
        assert(cu / 2 != cs);
    } else {
        assert(exp2(2) == 4);
        assert(ls == 7 && lu == 9);
        assert(cs <= 23 && cu >= 400);
        assert(cu / 4 >= 100);
        assert(cu / 4 != cs);
    }
}

/// The fixed literal/length code is prefix-free.
pub proof fn lemma_fixed_lit_prefix_free()
    ensures
        codes_prefix_free(fixed_lit_table()),
{
    let t = fixed_lit_table();
    crate::bits::lemma_exp2_small();
    assert forall|s: int, u: int|
        0 <= s < t.len() && 0 <= u < t.len() && s != u && t[s].0 > 0 && t[u].0 > 0 implies !is_prefix(
        #[trigger] msb_bits(t[s].1 as nat, t[s].0 as nat),
        #[trigger] msb_bits(t[u].1 as nat, t[u].0 as nat),
    ) by {
        let ls = t[s].0 as nat;
        let lu = t[u].0 as nat;
        let cs = t[s].1 as nat;
        let cu = t[u].1 as nat;
        assert(t[s] == fixed_lit_code(s));
        assert(t[u] == fixed_lit_code(u));
        if ls <= lu {
            lemma_fixed_tops(s, u);
            lemma_not_prefix_by_top(cs, ls, cu, lu);
        } else {
            lemma_msb_bits_len(cs, ls);
            lemma_msb_bits_len(cu, lu);
        }
    }
}

/// The fixed distance code, thirty 5-bit codes, is prefix-free.
pub proof fn lemma_fixed_dist_prefix_free()
    ensures
        codes_prefix_free(fixed_dist_table()),
{
    let t = fixed_dist_table();
    crate::bits::lemma_exp2_small();
    assert forall|s: int, u: int|
        0 <= s < t.len() && 0 <= u < t.len() && s != u && t[s].0 > 0 && t[u].0 > 0 implies !is_prefix(
        #[trigger] msb_bits(t[s].1 as nat, t[s].0 as nat),
        #[trigger] msb_bits(t[u].1 as nat, t[u].0 as nat),
    ) by {
        assert(exp2(0) == 1);
        assert((u as nat) / 1 == u as nat) by (nonlinear_arith);
        lemma_not_prefix_by_top(s as nat, 5, u as nat, 5);
    }
}

/// The fixed tables decode every block of valid symbols.
proof fn lemma_fixed_tables_decode(syms: Seq<Symbol>)
    requires
        symbols_valid(syms),
    ensures
        tables_decode(fixed_lit_table(), fixed_dist_table(), syms),
{
    let lit = fixed_lit_table();
    let dist = fixed_dist_table();
    lemma_fixed_lit_prefix_free();
    lemma_fixed_dist_prefix_free();
    lemma_symbols_fit_full(syms);
    assert forall|i: int| 0 <= i < syms.len() implies match #[trigger] syms[i] {
        Symbol::Literal(b) => lit[b as int].0 > 0,
        Symbol::Pointer { length, distance } => {
            &&& lit[length_repr_spec(length as nat + 3).0 as int].0 > 0
            &&& dist[dist_repr_spec(distance as nat).0 as int].0 > 0
        },
    } by {
        match syms[i] {
            Symbol::Literal(_) => {},
            Symbol::Pointer { length, distance } => {
                lemma_length_code_range(length as nat + 3);
                lemma_dist_code_range(distance as nat);
            },
        }
    }
}

/// The canonical tables of acceptable dynamic lengths decode the block.
proof fn lemma_dynamic_tables_decode(l: Seq<u32>, d: Seq<u32>, c: Seq<u32>, syms: Seq<Symbol>)
    requires
        dynamic_codes_ok(l, d, c, syms),
        symbols_valid(syms),
    ensures
        tables_decode(canon_table(l), canon_table(d), syms),
{
    let lit = canon_table(l);
    let dist = canon_table(d);
    lemma_canon_table_prefix_free(l);
    lemma_canon_table_prefix_free(d);
    assert forall|i: int| 0 <= i < syms.len() implies match #[trigger] syms[i] {
        Symbol::Literal(b) => lit[b as int].0 > 0,
        Symbol::Pointer { length, distance } => {
            &&& lit[length_repr_spec(length as nat + 3).0 as int].0 > 0
            &&& dist[dist_repr_spec(distance as nat).0 as int].0 > 0
        },
    } by {
        assert(match syms[i] {
            Symbol::Literal(b) => b < l.len(),
            Symbol::Pointer { length, distance } => {
                &&& length_repr_spec(length as nat + 3).0 < l.len()
                &&& dist_repr_spec(distance as nat).0 < d.len()
            },
        });
        assert(match syms[i] {
            Symbol::Literal(b) => l[b as int] > 0,
            Symbol::Pointer { length, distance } => {
                &&& l[length_repr_spec(length as nat + 3).0 as int] > 0
                &&& d[dist_repr_spec(distance as nat).0 as int] > 0
            },
        });
    }
}

/// Decodes one block: its BFINAL bit, its symbols and how many bits it took.
#[verifier::opaque]
pub open spec fn decode_block(bits: Seq<bool>) -> Option<(bool, Seq<Symbol>, nat)> {
    let btype = le_value(bits.subrange(1, 3));
    if bits.len() < 3 {
        None
    } else if btype == 1 {
        match decode_body(fixed_lit_table(), fixed_dist_table(), bits.skip(3), bits.len() + 1) {
            Some((syms, u)) => Some((bits[0], syms, 3 + u)),
            None => None,
        }
    } else if btype == 2 {
        match decode_dynamic_header(bits.skip(3)) {
            Some((lit, dist, h)) => match decode_body(
                lit,
                dist,
                bits.skip((3 + h) as int),
                bits.len() + 1,
            ) {
                Some((syms, u)) => Some((bits[0], syms, 3 + h + u)),
                None => None,
            },
            None => None,
        }
    } else {
        None
    }
}

/// More fuel does not change a decoding that succeeded.
proof fn lemma_decode_body_fuel(
    lit: Seq<(u32, u32)>,
    dist: Seq<(u32, u32)>,
    bits: Seq<bool>,
    f: nat,
    g: nat,
)
    requires
        decode_body(lit, dist, bits, f) is Some,
        f <= g,
    ensures
        decode_body(lit, dist, bits, g) == decode_body(lit, dist, bits, f),
    decreases f,
{
    if f > 0 {
        match decode_code(lit, bits) {
            None => {},
            Some(c) => {
                let k = lit[c].0 as nat;
                let after = bits.skip(k as int);
                if c < 256 {
                    lemma_decode_body_fuel(lit, dist, after, (f - 1) as nat, (g - 1) as nat);
                } else if c == 256 {
                } else if c <= 285 {
                    let e = length_extra_bits(c) as nat;
                    let dbits = after.skip(e as int);
                    match decode_code(dist, dbits) {
                        None => {},
                        Some(d) => {
                            let dk = dist[d].0 as nat;
                            let de = dist_extra_bits(d) as nat;
                            let used = k + e + dk + de;
                            lemma_decode_body_fuel(
                                lit,
                                dist,
                                bits.skip(used as int),
                                (f - 1) as nat,
                                (g - 1) as nat,
                            );
                        },
                    }
                }
            },
        }
    }
}

/// Each symbol takes at least one bit.
proof fn lemma_body_bits_len(lit: Seq<(u32, u32)>, dist: Seq<(u32, u32)>, syms: Seq<Symbol>)
    requires
        tables_decode(lit, dist, syms),
    ensures
        body_bits(lit, dist, syms).len() >= syms.len(),
    decreases syms.len(),
{
    if syms.len() > 0 {
        let init = syms.drop_last();
        assert(tables_decode(lit, dist, init)) by {
            assert forall|i: int| 0 <= i < init.len() implies #[trigger] init[i] == syms[i] by {}
            assert(symbols_valid(init)) by {
                assert forall|i: int| 0 <= i < init.len() implies match #[trigger] init[i] {
                    Symbol::Literal(_) => true,
                    Symbol::Pointer { length, distance } => 1 <= distance <= 32768,
                } by {
                    assert(init[i] == syms[i]);
                }
            }
            assert(symbols_fit(lit.len() as int, dist.len() as int, init)) by {
                assert forall|i: int| 0 <= i < init.len() implies match #[trigger] init[i] {
                    Symbol::Literal(b) => b < lit.len(),
                    Symbol::Pointer { length, distance } => {
                        &&& length_repr_spec(length as nat + 3).0 < lit.len()
                        &&& dist_repr_spec(distance as nat).0 < dist.len()
                    },
                } by {
                    assert(init[i] == syms[i]);
                }
            }
            assert forall|i: int| 0 <= i < init.len() implies match #[trigger] init[i] {
                Symbol::Literal(b) => lit[b as int].0 > 0,
                Symbol::Pointer { length, distance } => {
                    &&& lit[length_repr_spec(length as nat + 3).0 as int].0 > 0
                    &&& dist[dist_repr_spec(distance as nat).0 as int].0 > 0
                },
            } by {
                assert(init[i] == syms[i]);
            }
        }
        lemma_body_bits_len(lit, dist, init);
        let s = syms.last();
        assert(s == syms[syms.len() - 1]);
        match s {
            Symbol::Literal(b) => {
                lemma_msb_bits_len(lit[b as int].1 as nat, lit[b as int].0 as nat);
            },
            Symbol::Pointer { length, distance } => {
                let c = length_repr_spec(length as nat + 3).0 as int;
                lemma_msb_bits_len(lit[c].1 as nat, lit[c].0 as nat);
            },
        }
    }
}

/// Decoding a body, followed by anything, with fuel from the whole input.
proof fn lemma_body_decodes_with(
    lit: Seq<(u32, u32)>,
    dist: Seq<(u32, u32)>,
    syms: Seq<Symbol>,
    rest: Seq<bool>,
    fuel: nat,
)
    requires
        tables_decode(lit, dist, syms),
        fuel >= (body_bits(lit, dist, syms) + code_of(lit[256]) + rest).len() + 1,
    ensures
        decode_body(lit, dist, body_bits(lit, dist, syms) + code_of(lit[256]) + rest, fuel) == Some(
            (syms, (body_bits(lit, dist, syms) + code_of(lit[256])).len()),
        ),
{
    lemma_body_round_trip(lit, dist, syms, rest);
    lemma_body_bits_len(lit, dist, syms);
    lemma_decode_body_fuel(
        lit,
        dist,
        body_bits(lit, dist, syms) + code_of(lit[256]) + rest,
        syms.len() + 1,
        fuel,
    );
}

proof fn lemma_fixed_block_decode(syms: Seq<Symbol>, bfinal: bool, rest: Seq<bool>)
    requires
        symbols_valid(syms),
    ensures
        decode_block(fixed_block_bits(syms, bfinal) + rest) == Some(
            (bfinal, syms, fixed_block_bits(syms, bfinal).len()),
        ),
{
    reveal(decode_block);
    crate::bits::lemma_exp2_small();
    let bits = fixed_block_bits(syms, bfinal);
    let all = bits + rest;
    let lit = fixed_lit_table();
    let dist = fixed_dist_table();
    lemma_fixed_tables_decode(syms);
    let body = body_bits(lit, dist, syms) + code_of(lit[256]);
    let head = le_bits(bit_value(bfinal), 1) + le_bits(1, 2);
    lemma_le_bits_len(bit_value(bfinal), 1);
    lemma_le_bits_len(1, 2);
    assert(all =~= head + body + rest);
    assert(all.subrange(1, 3) =~= le_bits(1, 2));
    lemma_le_value_bits(1, 2);
    assert(all.skip(3) =~= body + rest);
    lemma_body_decodes_with(lit, dist, syms, rest, all.len() + 1);
}

proof fn lemma_dynamic_block_decode(
    l: Seq<u32>,
    d: Seq<u32>,
    c: Seq<u32>,
    syms: Seq<Symbol>,
    bfinal: bool,
    rest: Seq<bool>,
)
    requires
        dynamic_codes_ok(l, d, c, syms),
        symbols_valid(syms),
    ensures
        decode_block(dynamic_block_bits(l, d, c, syms, bfinal) + rest) == Some(
            (bfinal, syms, dynamic_block_bits(l, d, c, syms, bfinal).len()),
        ),
{
    lemma_dynamic_tables_decode(l, d, c, syms);
    lemma_lengths_decode_of(l, d, c, syms);
    lemma_header_lengths_ok(c, l, d);
    lemma_dynamic_block_decode_core(l, d, c, syms, bfinal, rest);
}

#[verifier::rlimit(60)]
proof fn lemma_dynamic_block_decode_core(
    l: Seq<u32>,
    d: Seq<u32>,
    c: Seq<u32>,
    syms: Seq<Symbol>,
    bfinal: bool,
    rest: Seq<bool>,
)
    requires
        tables_decode(canon_table(l), canon_table(d), syms),
        lengths_decode(canon_table(c), l + d),
        c.len() == 19,
        forall|x: int| 0 <= x < 19 ==> #[trigger] c[x] <= 7,
        257 <= l.len() <= 286,
        1 <= d.len() <= 30,
        header_lengths_ok(c, l, d),
    ensures
        decode_block(dynamic_block_bits(l, d, c, syms, bfinal) + rest) == Some(
            (bfinal, syms, dynamic_block_bits(l, d, c, syms, bfinal).len()),
        ),
{
    reveal(decode_block);
    crate::bits::lemma_exp2_small();
    let bits = dynamic_block_bits(l, d, c, syms, bfinal);
    let all = bits + rest;
    let lit = canon_table(l);
    let dist = canon_table(d);
    let body = body_bits(lit, dist, syms) + code_of(lit[256]);
    let hr = dynamic_header_rest(l, d, c);
    lemma_le_bits_len(bit_value(bfinal), 1);
    lemma_le_bits_len(2, 2);
    let head = le_bits(bit_value(bfinal), 1) + le_bits(2, 2);
    assert(bits =~= head + hr + body);
    assert(all =~= head + hr + body + rest);
    assert(all.subrange(1, 3) =~= le_bits(2, 2));
    lemma_le_value_bits(2, 2);
    assert(all.skip(3) =~= hr + (body + rest));
    lemma_dynamic_header_round_trip(l, d, c, body + rest);
    assert(all.skip((3 + hr.len()) as int) =~= body + rest);
    lemma_body_decodes_with(lit, dist, syms, rest, all.len() + 1);
}

/// Every block the encoder emits, followed by anything, decodes to its
/// BFINAL bit and its symbols, using exactly its own bits.
pub proof fn lemma_block_round_trip(syms: Seq<Symbol>, bfinal: bool, bits: Seq<bool>, rest: Seq<bool>)
    requires
        crate::deflate::block_encoding(syms, bfinal, bits),
        symbols_valid(syms),
    ensures
        decode_block(bits + rest) == Some((bfinal, syms, bits.len())),
{
    if bits == fixed_block_bits(syms, bfinal) {
        lemma_fixed_block_decode(syms, bfinal, rest);
    } else {
        let (l, d, c) = choose|l: Seq<u32>, d: Seq<u32>, c: Seq<u32>|
            dynamic_codes_ok(l, d, c, syms) && bits == #[trigger] dynamic_block_bits(
                l,
                d,
                c,
                syms,
                bfinal,
            );
        lemma_dynamic_block_decode(l, d, c, syms, bfinal, rest);
    }
}


/// `n` copies of `v`.
pub open spec fn repeat_len(v: u32, n: nat) -> Seq<u32> {
    Seq::new(n, |j: int| v)
}

/// Decodes run-length coded code lengths with the code-length table `clt`,
/// appending to `acc` until `total` lengths are there: the lengths and how
/// many bits they took.
pub open spec fn decode_lengths(
    clt: Seq<(u32, u32)>,
    bits: Seq<bool>,
    total: nat,
    acc: Seq<u32>,
    fuel: nat,
) -> Option<(Seq<u32>, nat)>
    decreases fuel,
{
    if acc.len() >= total {
        if acc.len() == total {
            Some((acc, 0))
        } else {
            None
        }
    } else if fuel == 0 {
        None
    } else {
        match decode_code(clt, bits) {
            None => None,
            Some(sym) => {
                let k = clt[sym].0 as nat;
                let after = bits.skip(k as int);
                let (nb, next) = if sym < 16 {
                    (0nat, acc.push(sym as u32))
                } else if sym == 16 {
                    (2nat, acc + repeat_len(acc.last(), 3 + le_value(after.take(2))))
                } else if sym == 17 {
                    (3nat, acc + repeat_len(0, 3 + le_value(after.take(3))))
                } else {
                    (7nat, acc + repeat_len(0, 11 + le_value(after.take(7))))
                };
                if sym == 16 && acc.len() == 0 {
                    None
                } else {
                    match decode_lengths(clt, after.skip(nb as int), total, next, (fuel - 1) as nat) {
                        Some((lens, used)) => Some((lens, k + nb + used)),
                        None => None,
                    }
                }
            },
        }
    }
}

/// A run found by `run_of` consists of the value it looked for.
proof fn lemma_run_of_values(lens: Seq<u32>, i: int, v: u32, cap: nat)
    requires
        0 <= i <= lens.len(),
    ensures
        forall|j: int| 0 <= j < run_of(lens, i, v, cap) ==> #[trigger] lens[i + j] == v,
    decreases cap,
{
    if cap > 0 && i < lens.len() && lens[i] == v {
        lemma_run_of_values(lens, i + 1, v, (cap - 1) as nat);
        assert forall|j: int| 0 <= j < run_of(lens, i, v, cap) implies #[trigger] lens[i + j] == v by {
            if j > 0 {
                assert(lens[(i + 1) + (j - 1)] == v);
            }
        }
    }
}

/// The header bits of run-length items, split after the first item.
proof fn lemma_rle_bits_first(clt: Seq<(u32, u32)>, items: Seq<(u8, u8, u8)>)
    requires
        items.len() > 0,
    ensures
        rle_bits(clt, items) == code_of(clt[items[0].0 as int]) + le_bits(
            items[0].2 as nat,
            items[0].1 as nat,
        ) + rle_bits(clt, items.drop_first()),
    decreases items.len(),
{
    if items.len() == 1 {
        assert(items.drop_last() =~= Seq::<(u8, u8, u8)>::empty());
        assert(items.drop_first() =~= Seq::<(u8, u8, u8)>::empty());
        assert(rle_bits(clt, items) =~= code_of(clt[items[0].0 as int]) + le_bits(
            items[0].2 as nat,
            items[0].1 as nat,
        ) + rle_bits(clt, items.drop_first()));
    } else {
        lemma_rle_bits_first(clt, items.drop_last());
        assert(items.drop_last().drop_first() =~= items.drop_first().drop_last());
        assert(items.drop_first().last() == items.last());
        assert(rle_bits(clt, items) =~= code_of(clt[items[0].0 as int]) + le_bits(
            items[0].2 as nat,
            items[0].1 as nat,
        ) + rle_bits(clt, items.drop_first()));
    }
}

/// Code lengths whose run-length items can be decoded with `clt`.
pub open spec fn lengths_decode(clt: Seq<(u32, u32)>, lens: Seq<u32>) -> bool {
    &&& codes_prefix_free(clt)
    &&& clt.len() == 19
    &&& forall|i: int| 0 <= i < lens.len() ==> #[trigger] lens[i] <= 15
    &&& forall|j: int|
        0 <= j < rle_from(lens, 0).len() ==> clt[#[trigger] rle_from(lens, 0)[j].0 as int].0 > 0
}

/// The bits of one run-length item.
pub open spec fn item_bits(clt: Seq<(u32, u32)>, it: (u8, u8, u8)) -> Seq<bool> {
    code_of(clt[it.0 as int]) + le_bits(it.2 as nat, it.1 as nat)
}

/// Decoding one run-length item appends the lengths it stands for.
proof fn lemma_length_item_step(
    clt: Seq<(u32, u32)>,
    lens: Seq<u32>,
    i: int,
    more: Seq<bool>,
    fuel: nat,
)
    requires
        lengths_decode(clt, lens),
        0 <= i < lens.len(),
        clt[rle_item(lens, i).0 as int].0 > 0,
    ensures
        decode_lengths(
            clt,
            item_bits(clt, rle_item(lens, i)) + more,
            lens.len(),
            lens.take(i),
            fuel + 1,
        ) == match decode_lengths(
            clt,
            more,
            lens.len(),
            lens.take(i + rle_advance(lens, i)),
            fuel,
        ) {
            Some((l, u)) => Some((l, item_bits(clt, rle_item(lens, i)).len() + u)),
            None => None,
        },
{
    lemma_rle_advance_bounds(lens, i);
    let adv = rle_advance(lens, i) as int;
    let it = rle_item(lens, i);
    let sym = it.0 as int;
    let xb = le_bits(it.2 as nat, it.1 as nat);
    let bits = item_bits(clt, it) + more;
    assert(bits =~= code_of(clt[sym]) + (xb + more));
    lemma_decode_code(clt, sym, xb + more);
    lemma_msb_bits_len(clt[sym].1 as nat, clt[sym].0 as nat);
    let k = clt[sym].0 as nat;
    assert(bits.skip(k as int) =~= xb + more);
    lemma_le_bits_len(it.2 as nat, it.1 as nat);
    crate::bits::lemma_exp2_small();
    let v = lens[i];
    if v == 0 {
        lemma_run_of_bound(lens, i, 0, 138);
        lemma_run_of_values(lens, i, 0, 138);
    } else if i > 0 && lens[i - 1] == v {
        lemma_run_of_bound(lens, i, v, 6);
        lemma_run_of_values(lens, i, v, 6);
    }
    let r = adv as nat;
    if sym >= 16 {
        assert((xb + more).take(it.1 as int) =~= xb);
        lemma_le_value_bits(it.2 as nat, it.1 as nat);
        assert((xb + more).skip(it.1 as int) =~= more);
        if sym == 16 {
            assert(v != 0 && i > 0 && lens[i - 1] == v);
            assert(adv == run_of(lens, i, v, 6));
            assert(lens.take(i).last() == lens[i - 1]);
            assert forall|j: int| 0 <= j < r implies #[trigger] lens[i + j] == v by {}
            assert(lens.take(i) + repeat_len(lens.take(i).last(), r) =~= lens.take(i + adv)) by {
                assert forall|j: int| 0 <= j < i + adv implies (lens.take(i) + repeat_len(
                    lens.take(i).last(),
                    r,
                ))[j] == lens.take(i + adv)[j] by {
                    if j >= i {
                        assert(lens[i + (j - i)] == v);
                    }
                }
            }
        } else {
            assert(v == 0);
            assert(adv == run_of(lens, i, 0, 138));
            assert(lens.take(i) + repeat_len(0, r) =~= lens.take(i + adv)) by {
                assert forall|j: int| 0 <= j < i + adv implies (lens.take(i) + repeat_len(0, r))[j]
                    == lens.take(i + adv)[j] by {
                    if j >= i {
                        assert(lens[i + (j - i)] == 0);
                    }
                }
            }
        }
    } else {
        assert((xb + more).skip(0) =~= xb + more);
        assert(xb =~= Seq::<bool>::empty());
        assert(lens.take(i).push(sym as u32) =~= lens.take(i + adv));
    }
}

/// Decoding the run-length items of `lens` from position `i`, after the
/// lengths before `i`, gives back all of `lens`.
#[verifier::rlimit(60)]
proof fn lemma_lengths_round_trip(
    clt: Seq<(u32, u32)>,
    lens: Seq<u32>,
    i: int,
    m: int,
    rest: Seq<bool>,
    fuel: nat,
)
    requires
        lengths_decode(clt, lens),
        0 <= i <= lens.len(),
        0 <= m <= rle_from(lens, 0).len(),
        rle_from(lens, 0).skip(m) == rle_from(lens, i),
        fuel >= lens.len() - i,
    ensures
        decode_lengths(
            clt,
            rle_bits(clt, rle_from(lens, i)) + rest,
            lens.len(),
            lens.take(i),
            fuel,
        ) == Some((lens, rle_bits(clt, rle_from(lens, i)).len())),
    decreases lens.len() - i,
{
    let items = rle_from(lens, i);
    if i >= lens.len() {
        assert(items.len() == 0);
        assert(rle_bits(clt, items) =~= Seq::<bool>::empty());
        assert(lens.take(i) =~= lens);
        assert(rle_bits(clt, items) + rest =~= rest);
    } else {
        lemma_rle_advance_bounds(lens, i);
        let adv = rle_advance(lens, i) as int;
        let it = rle_item(lens, i);
        assert(items == seq![it] + rle_from(lens, i + adv));
        assert(items[0] == it);
        assert(items.drop_first() =~= rle_from(lens, i + adv));
        assert(rle_from(lens, 0)[m] == it) by {
            assert(rle_from(lens, 0).skip(m)[0] == rle_from(lens, 0)[m]);
        }
        assert(rle_from(lens, 0).skip(m + 1) =~= rle_from(lens, i + adv)) by {
            assert(rle_from(lens, 0).skip(m + 1) =~= rle_from(lens, 0).skip(m).drop_first());
        }
        lemma_lengths_round_trip(clt, lens, i + adv, m + 1, rest, (fuel - 1) as nat);
        lemma_rle_bits_first(clt, items);
        let more = rle_bits(clt, rle_from(lens, i + adv)) + rest;
        assert(rle_bits(clt, items) + rest =~= item_bits(clt, it) + more);
        lemma_length_item_step(clt, lens, i, more, (fuel - 1) as nat);
    }
}


/// Where the length of each code-length symbol stands in sending order.
pub open spec fn clen_pos() -> Seq<int> {
    seq![3, 17, 15, 13, 11, 9, 7, 5, 4, 6, 8, 10, 12, 14, 16, 18, 0, 1, 2]
}

/// The code-length code lengths read from `bits` when `ncl` are sent,
/// 3 bits each in sending order; those not sent are 0.
pub open spec fn read_clen(bits: Seq<bool>, ncl: int) -> Seq<u32> {
    Seq::new(
        19,
        |x: int|
            if clen_pos()[x] < ncl {
                le_value(bits.subrange(3 * clen_pos()[x], 3 * clen_pos()[x] + 3)) as u32
            } else {
                0u32
            },
    )
}

/// The code-length, literal/length and distance code lengths of a header
/// are each full (see `lengths_full`).
#[verifier::opaque]
pub open spec fn header_lengths_ok(cl: Seq<u32>, lit: Seq<u32>, dist: Seq<u32>) -> bool {
    &&& lengths_full(cl, MAX_BITS as nat)
    &&& lengths_full(lit, MAX_BITS as nat)
    &&& lengths_full(dist, MAX_BITS as nat)
}

proof fn lemma_header_lengths_ok(cl: Seq<u32>, lit: Seq<u32>, dist: Seq<u32>)
    requires
        lengths_full(cl, MAX_BITS as nat),
        lengths_full(lit, MAX_BITS as nat),
        lengths_full(dist, MAX_BITS as nat),
    ensures
        header_lengths_ok(cl, lit, dist),
{
    reveal(header_lengths_ok);
}

/// Decodes a dynamic block header after its first three bits: the
/// literal/length and distance tables, and how many bits it took. Fails on
/// more than 286 literal/length or 30 distance codes, and on code lengths
/// that leave more than a lone length-1 code unfilled.
pub open spec fn decode_dynamic_header(bits: Seq<bool>) -> Option<
    (Seq<(u32, u32)>, Seq<(u32, u32)>, nat),
> {
    let hlit = le_value(bits.take(5)) + 257;
    let hdist = le_value(bits.subrange(5, 10)) + 1;
    let ncl = le_value(bits.subrange(10, 14)) + 4;
    let cl = read_clen(bits.skip(14), ncl as int);
    let after = bits.skip((14 + 3 * ncl) as int);
    if hlit > 286 || hdist > 30 {
        None
    } else {
        match decode_lengths(canon_table(cl), after, hlit + hdist, Seq::empty(), hlit + hdist) {
            Some((lens, used)) => if header_lengths_ok(
                cl,
                lens.take(hlit as int),
                lens.skip(hlit as int),
            ) {
                Some(
                    (
                        canon_table(lens.take(hlit as int)),
                        canon_table(lens.skip(hlit as int)),
                        14 + 3 * ncl + used,
                    ),
                )
            } else {
                None
            },
            None => None,
        }
    }
}

proof fn lemma_clen_order_pos()
    ensures
        forall|x: int|
            0 <= x < 19 ==> 0 <= #[trigger] clen_pos()[x] < 19 && clen_order()[clen_pos()[x]] == x,
{
    assert forall|x: int| 0 <= x < 19 implies 0 <= #[trigger] clen_pos()[x] < 19 && clen_order()[clen_pos()[x]] == x by {
        if x == 0 {} else if x == 1 {} else if x == 2 {} else if x == 3 {} else if x == 4 {}
        else if x == 5 {} else if x == 6 {} else if x == 7 {} else if x == 8 {} else if x == 9 {}
        else if x == 10 {} else if x == 11 {} else if x == 12 {} else if x == 13 {}
        else if x == 14 {} else if x == 15 {} else if x == 16 {} else if x == 17 {} else {}
    }
}

proof fn lemma_clen_lens_bits(c: Seq<u32>, n: int)
    requires
        0 <= n <= 19,
        c.len() == 19,
    ensures
        clen_lens_bits(c, n).len() == 3 * n,
        forall|k: int|
            0 <= k < n ==> #[trigger] clen_lens_bits(c, n).subrange(3 * k, 3 * k + 3) == le_bits(
                c[clen_order()[k]] as nat,
                3,
            ),
    decreases n,
{
    if n > 0 {
        lemma_clen_lens_bits(c, n - 1);
        lemma_le_bits_len(c[clen_order()[n - 1]] as nat, 3);
        let prev = clen_lens_bits(c, n - 1);
        let b = clen_lens_bits(c, n);
        assert forall|k: int| 0 <= k < n implies #[trigger] b.subrange(3 * k, 3 * k + 3) == le_bits(
            c[clen_order()[k]] as nat,
            3,
        ) by {
            if k < n - 1 {
                assert(b.subrange(3 * k, 3 * k + 3) =~= prev.subrange(3 * k, 3 * k + 3));
            } else {
                assert(b.subrange(3 * k, 3 * k + 3) =~= le_bits(c[clen_order()[k]] as nat, 3));
            }
        }
    }
}

/// The code-length code lengths after the last one sent are 0.
proof fn lemma_clen_count_trailing(c: Seq<u32>, k: int)
    requires
        4 <= k <= 19,
        c.len() == 19,
    ensures
        4 <= clen_count(c, k) <= k,
        forall|j: int| clen_count(c, k) <= j < k ==> c[#[trigger] clen_order()[j]] == 0,
    decreases k,
{
    if k > 4 && c[clen_order()[k - 1]] == 0 {
        lemma_clen_count_trailing(c, k - 1);
    }
}

/// Reading back the sent code-length code lengths gives the lengths.
proof fn lemma_read_clen(c: Seq<u32>, rest: Seq<bool>)
    requires
        c.len() == 19,
        forall|x: int| 0 <= x < 19 ==> #[trigger] c[x] <= 7,
    ensures
        read_clen(clen_lens_bits(c, clen_count(c, 19)) + rest, clen_count(c, 19)) == c,
{
    let n = clen_count(c, 19);
    lemma_clen_count_trailing(c, 19);
    lemma_clen_lens_bits(c, n);
    lemma_clen_order_pos();
    crate::bits::lemma_exp2_small();
    let bits = clen_lens_bits(c, n) + rest;
    assert forall|x: int| 0 <= x < 19 implies #[trigger] read_clen(bits, n)[x] == c[x] by {
        let p = clen_pos()[x];
        assert(clen_order()[p] == x);
        if p < n {
            assert(bits.subrange(3 * p, 3 * p + 3) =~= clen_lens_bits(c, n).subrange(3 * p, 3 * p + 3));
            lemma_le_value_bits(c[x] as nat, 3);
        } else {
            assert(c[clen_order()[p]] == 0);
        }
    }
    assert(read_clen(bits, n) =~= c);
}


/// The header bits of a dynamic block after its first three bits.
pub open spec fn dynamic_header_rest(l: Seq<u32>, d: Seq<u32>, c: Seq<u32>) -> Seq<bool> {
    let ncl = clen_count(c, 19);
    le_bits((l.len() - 257) as nat, 5) + le_bits((d.len() - 1) as nat, 5) + le_bits(
        (ncl - 4) as nat,
        4,
    ) + clen_lens_bits(c, ncl) + rle_bits(canon_table(c), rle_from(l + d, 0))
}

/// Run-length items of lengths up to 15 use the symbols 0 to 18.
proof fn lemma_rle_symbols(lens: Seq<u32>, i: int)
    requires
        0 <= i <= lens.len(),
        forall|k: int| 0 <= k < lens.len() ==> #[trigger] lens[k] <= 15,
    ensures
        forall|j: int| 0 <= j < rle_from(lens, i).len() ==> (#[trigger] rle_from(lens, i)[j]).0 < 19,
    decreases lens.len() - i,
{
    if i < lens.len() {
        lemma_rle_advance_bounds(lens, i);
        let adv = rle_advance(lens, i) as int;
        lemma_rle_symbols(lens, i + adv);
        let items = rle_from(lens, i);
        assert(items == seq![rle_item(lens, i)] + rle_from(lens, i + adv));
        assert forall|j: int| 0 <= j < items.len() implies (#[trigger] items[j]).0 < 19 by {
            if j > 0 {
                assert(items[j] == rle_from(lens, i + adv)[j - 1]);
            }
        }
    }
}

/// Acceptable dynamic code lengths can be run-length decoded.
proof fn lemma_lengths_decode_of(l: Seq<u32>, d: Seq<u32>, c: Seq<u32>, syms: Seq<Symbol>)
    requires
        dynamic_codes_ok(l, d, c, syms),
    ensures
        lengths_decode(canon_table(c), l + d),
        forall|x: int| 0 <= x < 19 ==> #[trigger] c[x] <= 7,
{
    let lens = l + d;
    lemma_canon_table_prefix_free(c);
    assert forall|i: int| 0 <= i < lens.len() implies #[trigger] lens[i] <= 15 by {
        if i < l.len() {
            assert(lens[i] == l[i]);
        } else {
            assert(lens[i] == d[i - l.len()]);
        }
    }
    assert forall|x: int| 0 <= x < 19 implies #[trigger] c[x] <= 7 by {
        assert(c[x] <= crate::dynamic::MAX_CLEN_BITS);
    }
    lemma_rle_symbols(lens, 0);
    let items = rle_from(lens, 0);
    assert forall|j: int| 0 <= j < items.len() implies canon_table(c)[#[trigger] items[j].0 as int].0
        > 0 by {
        assert(c[items[j].0 as int] > 0);
    }
}

/// A decoder reads back the tables of a dynamic block from its header.
proof fn lemma_dynamic_header_round_trip(l: Seq<u32>, d: Seq<u32>, c: Seq<u32>, after: Seq<bool>)
    requires
        lengths_decode(canon_table(c), l + d),
        header_lengths_ok(c, l, d),
        c.len() == 19,
        forall|x: int| 0 <= x < 19 ==> #[trigger] c[x] <= 7,
        257 <= l.len() <= 286,
        1 <= d.len() <= 30,
    ensures
        decode_dynamic_header(dynamic_header_rest(l, d, c) + after) == Some(
            (canon_table(l), canon_table(d), dynamic_header_rest(l, d, c).len()),
        ),
{
    let ncl = clen_count(c, 19);
    lemma_clen_count_trailing(c, 19);
    lemma_clen_lens_bits(c, ncl);
    crate::bits::lemma_exp2_small();
    let a = le_bits((l.len() - 257) as nat, 5);
    let b = le_bits((d.len() - 1) as nat, 5);
    let n4 = le_bits((ncl - 4) as nat, 4);
    let cb = clen_lens_bits(c, ncl);
    let lens = l + d;
    let rb = rle_bits(canon_table(c), rle_from(lens, 0));
    lemma_le_bits_len((l.len() - 257) as nat, 5);
    lemma_le_bits_len((d.len() - 1) as nat, 5);
    lemma_le_bits_len((ncl - 4) as nat, 4);
    let bits = dynamic_header_rest(l, d, c) + after;
    assert(bits =~= a + b + n4 + cb + rb + after);
    assert(bits.take(5) =~= a);
    assert(bits.subrange(5, 10) =~= b);
    assert(bits.subrange(10, 14) =~= n4);
    lemma_le_value_bits((l.len() - 257) as nat, 5);
    lemma_le_value_bits((d.len() - 1) as nat, 5);
    lemma_le_value_bits((ncl - 4) as nat, 4);
    assert(bits.skip(14) =~= cb + (rb + after));
    lemma_read_clen(c, rb + after);
    assert(bits.skip(14 + 3 * ncl) =~= rb + after);
    assert(rle_from(lens, 0).skip(0) =~= rle_from(lens, 0));
    assert(lens.take(0) =~= Seq::<u32>::empty());
    lemma_lengths_round_trip(canon_table(c), lens, 0, 0, after, lens.len());
    assert(lens.take(l.len() as int) =~= l);
    assert(lens.skip(l.len() as int) =~= d);
}


/// Decodes blocks until one has BFINAL set, reading at most `fuel` blocks.
pub open spec fn decode_blocks(bits: Seq<bool>, fuel: nat) -> Option<Seq<Seq<Symbol>>>
    decreases fuel,
{
    if fuel == 0 {
        None
    } else {
        match decode_block(bits) {
            None => None,
            Some((fin, syms, u)) => if fin {
                Some(seq![syms])
            } else {
                match decode_blocks(bits.skip(u as int), (fuel - 1) as nat) {
                    Some(rest) => Some(seq![syms] + rest),
                    None => None,
                }
            },
        }
    }
}

/// What a DEFLATE decoder makes of the bytes `data`: the blocks it reads,
/// with their symbols replayed from an empty output.
pub open spec fn inflate(data: Seq<u8>) -> Option<Seq<u8>> {
    match decode_blocks(bytes_bits(data), 8 * data.len()) {
        Some(blocks) => Some(replay(Seq::empty(), concat(blocks))),
        None => None,
    }
}

/// The concatenation, split after its first part.
proof fn lemma_concat_first<A>(s: Seq<Seq<A>>)
    requires
        s.len() > 0,
    ensures
        concat(s) == s[0] + concat(s.drop_first()),
    decreases s.len(),
{
    if s.len() == 1 {
        assert(s.drop_last() =~= Seq::<Seq<A>>::empty());
        assert(s.drop_first() =~= Seq::<Seq<A>>::empty());
        assert(concat(s) =~= s[0] + concat(s.drop_first()));
    } else {
        lemma_concat_first(s.drop_last());
        assert(s.drop_last().drop_first() =~= s.drop_first().drop_last());
        assert(s.drop_first().last() == s.last());
        assert(concat(s) =~= s[0] + concat(s.drop_first()));
    }
}

/// Valid symbols in a concatenation are valid in each part.
proof fn lemma_concat_symbols_valid(s: Seq<Seq<Symbol>>)
    requires
        symbols_valid(concat(s)),
    ensures
        forall|i: int| 0 <= i < s.len() ==> symbols_valid(#[trigger] s[i]),
    decreases s.len(),
{
    if s.len() > 0 {
        let a = concat(s.drop_last());
        let b = s.last();
        assert(concat(s) == a + b);
        assert(symbols_valid(a)) by {
            assert forall|i: int| 0 <= i < a.len() implies match #[trigger] a[i] {
                Symbol::Literal(_) => true,
                Symbol::Pointer { length, distance } => 1 <= distance <= 32768,
            } by {
                assert((a + b)[i] == a[i]);
            }
        }
        assert(symbols_valid(b)) by {
            assert forall|i: int| 0 <= i < b.len() implies match #[trigger] b[i] {
                Symbol::Literal(_) => true,
                Symbol::Pointer { length, distance } => 1 <= distance <= 32768,
            } by {
                assert((a + b)[a.len() + i] == b[i]);
            }
        }
        lemma_concat_symbols_valid(s.drop_last());
        assert forall|i: int| 0 <= i < s.len() implies symbols_valid(#[trigger] s[i]) by {
            if i < s.len() - 1 {
                assert(s[i] == s.drop_last()[i]);
            }
        }
    }
}

/// Each encoding, followed by anything, decodes to its block; only the
/// last has BFINAL set.
pub open spec fn blocks_decode(blocks: Seq<Seq<Symbol>>, encs: Seq<Seq<bool>>) -> bool {
    &&& blocks.len() == encs.len()
    &&& forall|j: int, r: Seq<bool>|
        0 <= j < blocks.len() ==> #[trigger] decode_block(encs[j] + r) == Some(
            (j == blocks.len() - 1, blocks[j], encs[j].len()),
        )
}

proof fn lemma_blocks_decode(blocks: Seq<Seq<Symbol>>, encs: Seq<Seq<bool>>)
    requires
        crate::deflate::deflate_blocks(blocks, encs),
        forall|j: int| 0 <= j < blocks.len() ==> symbols_valid(#[trigger] blocks[j]),
    ensures
        blocks_decode(blocks, encs),
{
    assert forall|j: int, r: Seq<bool>| 0 <= j < blocks.len() implies #[trigger] decode_block(
        encs[j] + r,
    ) == Some((j == blocks.len() - 1, blocks[j], encs[j].len())) by {
        assert(blocks[j].len() > 0 && crate::deflate::block_encoding(
            blocks[j],
            j == blocks.len() - 1,
            encs[j],
        ));
        lemma_block_round_trip(blocks[j], j == blocks.len() - 1, encs[j], r);
    }
}

/// Blocks from `i` on decode, followed by anything, to those blocks.
proof fn lemma_blocks_round_trip(
    blocks: Seq<Seq<Symbol>>,
    encs: Seq<Seq<bool>>,
    i: int,
    rest: Seq<bool>,
    fuel: nat,
)
    requires
        blocks_decode(blocks, encs),
        0 <= i < blocks.len(),
        fuel >= blocks.len() - i,
    ensures
        decode_blocks(concat(encs.skip(i)) + rest, fuel) == Some(blocks.skip(i)),
    decreases blocks.len() - i,
{
    let last = blocks.len() - 1;
    lemma_concat_first(encs.skip(i));
    assert(encs.skip(i)[0] == encs[i]);
    assert(encs.skip(i).drop_first() =~= encs.skip(i + 1));
    let more = concat(encs.skip(i + 1)) + rest;
    assert(concat(encs.skip(i)) + rest =~= encs[i] + more);
    assert(decode_block(encs[i] + more) == Some((i == last, blocks[i], encs[i].len())));
    if i == last {
        assert(blocks.skip(i) =~= seq![blocks[i]]);
    } else {
        lemma_blocks_round_trip(blocks, encs, i + 1, rest, (fuel - 1) as nat);
        assert((encs[i] + more).skip(encs[i].len() as int) =~= more);
        assert(seq![blocks[i]] + blocks.skip(i + 1) =~= blocks.skip(i));
    }
}

/// The encodings before the last take at least one bit each.
proof fn lemma_concat_encs_len_prefix(blocks: Seq<Seq<Symbol>>, encs: Seq<Seq<bool>>, k: int)
    requires
        blocks_decode(blocks, encs),
        0 <= k <= encs.len(),
    ensures
        concat(encs.take(k)).len() >= k,
    decreases k,
{
    if k > 0 {
        lemma_concat_encs_len_prefix(blocks, encs, k - 1);
        let n = k - 1;
        assert(decode_block(encs[n] + Seq::<bool>::empty()) == Some(
            (n == blocks.len() - 1, blocks[n], encs[n].len()),
        ));
        assert(encs[n] + Seq::<bool>::empty() =~= encs[n]);
        assert(encs[n].len() >= 3) by {
            reveal(decode_block);
        }
        assert(encs.take(k).drop_last() =~= encs.take(k - 1));
        assert(encs.take(k).last() == encs[n]);
    }
}

/// Round trip: a decoder given the output of the encoder for `src` gives
/// back `src`.
pub proof fn lemma_deflate_round_trip(
    out: Seq<u8>,
    src: Seq<u8>,
    blocks: Seq<Seq<Symbol>>,
    encs: Seq<Seq<bool>>,
)
    requires
        crate::deflate::is_deflate_of(out, src, blocks, encs),
    ensures
        inflate(out) == Some(src),
{
    let pad = zeros(align_pad(concat(encs).len()));
    crate::block::lemma_packs_bytes_bits(out, concat(encs) + pad);
    crate::deflate::lemma_valid_stream_symbols(Seq::empty(), concat(blocks));
    lemma_concat_symbols_valid(blocks);
    lemma_blocks_decode(blocks, encs);
    lemma_concat_encs_len_prefix(blocks, encs, encs.len() as int);
    assert(encs.take(encs.len() as int) =~= encs);
    crate::block::lemma_bytes_bits_len(out);
    assert(encs.skip(0) =~= encs);
    assert(blocks.skip(0) =~= blocks);
    lemma_blocks_round_trip(blocks, encs, 0, pad, 8 * out.len());
}


/// The first bit of a block encoding is its BFINAL flag.
proof fn lemma_block_first_bit(syms: Seq<Symbol>, bfinal: bool, bits: Seq<bool>)
    requires
        crate::deflate::block_encoding(syms, bfinal, bits),
    ensures
        bits.len() > 0,
        bits[0] == bfinal,
{
    lemma_le_bits_len(bit_value(bfinal), 1);
    if bits == fixed_block_bits(syms, bfinal) {
        assert(bits[0] == le_bits(bit_value(bfinal), 1)[0]);
    } else {
        let (l, d, c) = choose|l: Seq<u32>, d: Seq<u32>, c: Seq<u32>|
            dynamic_codes_ok(l, d, c, syms) && bits == #[trigger] dynamic_block_bits(
                l,
                d,
                c,
                syms,
                bfinal,
            );
        assert(bits[0] == le_bits(bit_value(bfinal), 1)[0]);
    }
}

/// In a DEFLATE stream of the encoder, exactly one block has BFINAL set,
/// and it is the last one.
pub proof fn lemma_bfinal_only_last(blocks: Seq<Seq<Symbol>>, encs: Seq<Seq<bool>>)
    requires
        crate::deflate::deflate_blocks(blocks, encs),
    ensures
        forall|i: int|
            0 <= i < encs.len() ==> (#[trigger] encs[i]).len() > 0 && (encs[i][0] <==> i
                == encs.len() - 1),
{
    assert forall|i: int| 0 <= i < encs.len() implies (#[trigger] encs[i]).len() > 0 && (
    encs[i][0] <==> i == encs.len() - 1) by {
        assert(blocks[i].len() > 0 && crate::deflate::block_encoding(
            blocks[i],
            i == blocks.len() - 1,
            encs[i],
        ));
        lemma_block_first_bit(blocks[i], i == blocks.len() - 1, encs[i]);
    }
}

} // verus!
