//! The LZ77 symbol alphabet, what a symbol stream decodes to, and the
//! mapping of lengths and distances onto DEFLATE codes and extra bits.

use vstd::prelude::*;
use crate::bits::{exp2, lemma_exp2_small, lemma_exp2_pos};

verus! {

/// Size of the sliding window.
pub const WINDOW_SIZE: usize = 32768;

/// Size of the lookahead, the longest match DEFLATE can express.
pub const LOOKAHEAD_SIZE: usize = 258;

/// One LZ77 output item: a byte, or a back-reference whose `length` is
/// stored as the logical length minus 3.
#[derive(Clone, Copy, Debug, PartialEq, Eq, Structural)]
pub enum Symbol {
    Literal(u8),
    Pointer { length: u8, distance: u16 },
}

/// The result of one call of the LZ77 block encoder.
pub enum Lz77Status {
    Normal(Vec<Symbol>),
    LastBlock(Vec<Symbol>),
}

/// The digit of value `d` in base 16, upper case.
pub open spec fn hex_digit(d: nat) -> char {
    seq!['0', '1', '2', '3', '4', '5', '6', '7', '8', '9', 'A', 'B', 'C', 'D', 'E', 'F'][d as int]
}

/// `n` in decimal, without leading zeros.
pub open spec fn decimal(n: nat) -> Seq<char>
    decreases n,
{
    if n < 10 {
        seq![hex_digit(n)]
    } else {
        decimal(n / 10).push(hex_digit(n % 10))
    }
}

/// A literal as two hex digits; a pointer as its two stored fields,
/// `(length,distance)`, in decimal.
pub open spec fn symbol_text(s: Symbol) -> Seq<char> {
    match s {
        Symbol::Literal(b) => seq![hex_digit(b as nat / 16), hex_digit(b as nat % 16)],
        Symbol::Pointer { length, distance } => seq!['('] + decimal(length as nat) + seq![',']
            + decimal(distance as nat) + seq![')'],
    }
}

/// Relies on `format!` with `{:02X}`: a byte as two upper-case hex digits.
#[verifier::external_body]
fn hex_byte_text(b: u8) -> (r: String)
    ensures
        r@ == seq![hex_digit(b as nat / 16), hex_digit(b as nat % 16)],
{
    format!("{:02X}", b)
}

/// Relies on `format!` with `({},{})`: two numbers in decimal, in parentheses.
#[verifier::external_body]
fn pair_text(a: u16, b: u16) -> (r: String)
    ensures
        r@ == seq!['('] + decimal(a as nat) + seq![','] + decimal(b as nat) + seq![')'],
{
    format!("({},{})", a, b)
}

impl Symbol {
    /// The text form of the symbol.
    pub fn to_string(&self) -> (r: String)
        ensures
            r@ == symbol_text(*self),
    {
        match *self {
            Symbol::Literal(c) => hex_byte_text(c),
            Symbol::Pointer { length, distance } => pair_text(length as u16, distance),
        }
    }
}

/// Appends `n` bytes, each copied from `d` positions before the end.
pub open spec fn copy_back(out: Seq<u8>, d: nat, n: nat) -> Seq<u8>
    decreases n,
{
    if n == 0 {
        out
    } else {
        copy_back(out.push(out[out.len() - d]), d, (n - 1) as nat)
    }
}

/// The bytes `out` becomes once `s` is decoded after it.
pub open spec fn apply_symbol(out: Seq<u8>, s: Symbol) -> Seq<u8> {
    match s {
        Symbol::Literal(b) => out.push(b),
        Symbol::Pointer { length, distance } => copy_back(
            out,
            distance as nat,
            length as nat + 3,
        ),
    }
}

/// The bytes `out` becomes once `syms` are decoded after it, in order.
pub open spec fn replay(out: Seq<u8>, syms: Seq<Symbol>) -> Seq<u8>
    decreases syms.len(),
{
    if syms.len() == 0 {
        out
    } else {
        apply_symbol(replay(out, syms.drop_last()), syms.last())
    }
}

/// A pointer reaches back at least one byte, at most a window, and never
/// before the start of what was decoded before it.
pub open spec fn symbol_valid_after(out: Seq<u8>, s: Symbol) -> bool {
    match s {
        Symbol::Literal(_) => true,
        Symbol::Pointer { length, distance } => 1 <= distance <= WINDOW_SIZE && distance
            <= out.len(),
    }
}

/// Every symbol of `syms` is valid after what precedes it.
pub open spec fn stream_valid(out: Seq<u8>, syms: Seq<Symbol>) -> bool {
    forall|i: int|
        0 <= i < syms.len() ==> symbol_valid_after(
            #[trigger] replay(out, syms.take(i)),
            syms[i],
        )
}

/// A copy from `d` back reproduces input that repeats with period `d`,
/// overlapping its own output or not.
pub proof fn lemma_copy_back_periodic(input: Seq<u8>, c: int, d: nat, n: nat)
    requires
        1 <= d <= c,
        c + n <= input.len(),
        forall|j: int| 0 <= j < n ==> #[trigger] input[c + j] == input[c - d + j],
    ensures
        copy_back(input.take(c), d, n) == input.take(c + n),
    decreases n,
{
    if n == 0 {
    } else {
        assert(input[c + 0] == input[c - d + 0]);
        assert(input.take(c).push(input.take(c)[c - d]) =~= input.take(c + 1));
        assert forall|j: int| 0 <= j < n - 1 implies #[trigger] input[(c + 1) + j] == input[(c + 1)
            - d + j] by {
            assert(input[c + (j + 1)] == input[c - d + (j + 1)]);
        }
        lemma_copy_back_periodic(input, c + 1, d, (n - 1) as nat);
    }
}

/// Decoding two symbol runs one after the other decodes their concatenation.
pub proof fn lemma_replay_append(out: Seq<u8>, a: Seq<Symbol>, b: Seq<Symbol>)
    ensures
        replay(out, a + b) == replay(replay(out, a), b),
    decreases b.len(),
{
    if b.len() == 0 {
        assert(a + b =~= a);
    } else {
        assert((a + b).drop_last() =~= a + b.drop_last());
        lemma_replay_append(out, a, b.drop_last());
    }
}

/// Validity of a concatenation is validity of its parts, the second after the first.
pub proof fn lemma_stream_valid_append(out: Seq<u8>, a: Seq<Symbol>, b: Seq<Symbol>)
    requires
        stream_valid(out, a),
        stream_valid(replay(out, a), b),
    ensures
        stream_valid(out, a + b),
{
    assert forall|i: int| 0 <= i < (a + b).len() implies symbol_valid_after(
        #[trigger] replay(out, (a + b).take(i)),
        (a + b)[i],
    ) by {
        if i < a.len() {
            assert((a + b).take(i) =~= a.take(i));
        } else {
            assert((a + b).take(i) =~= a + b.take(i - a.len()));
            lemma_replay_append(out, a, b.take(i - a.len()));
            assert(replay(replay(out, a), b.take(i - a.len())) == replay(out, (a + b).take(i)));
        }
    }
}

// ---------------------------------------------------------------------------
// Length and distance codes (RFC 1951, section 3.2.5)

/// Extra bits that follow length code `code` (257..=285).
pub open spec fn length_extra_bits(code: int) -> int {
    if 265 <= code <= 284 {
        (code - 265) / 4 + 1
    } else {
        0
    }
}

/// The shortest length that length code `code` stands for.
pub open spec fn length_base(code: int) -> int {
    if code <= 264 {
        code - 254
    } else if code == 285 {
        258
    } else {
        (4 + (code - 265) % 4) * exp2(length_extra_bits(code) as nat) + 3
    }
}

/// `(code, extra_bits, extra_value)` represents length `len`.
pub open spec fn length_repr_of(len: int, r: (u16, u8, u8)) -> bool {
    &&& 257 <= r.0 <= 285
    &&& r.1 == length_extra_bits(r.0 as int)
    &&& (r.2 as nat) < exp2(r.1 as nat)
    &&& length_base(r.0 as int) + r.2 == len
    &&& (r.0 == 285 <==> len == 258)
}

/// Extra bits that follow distance code `code` (0..=29).
pub open spec fn dist_extra_bits(code: int) -> int {
    if code >= 4 {
        (code - 2) / 2
    } else {
        0
    }
}

/// The shortest distance that distance code `code` stands for.
pub open spec fn dist_base(code: int) -> int {
    if code < 4 {
        code + 1
    } else {
        (2 + code % 2) * exp2(dist_extra_bits(code) as nat) + 1
    }
}

/// `(code, extra_bits, extra_value)` represents distance `dist`.
pub open spec fn dist_repr_of(dist: int, r: (u8, u8, u16)) -> bool {
    &&& r.0 <= 29
    &&& r.1 == dist_extra_bits(r.0 as int)
    &&& (r.2 as nat) < exp2(r.1 as nat)
    &&& dist_base(r.0 as int) + r.2 == dist
}

/// The position of the highest set bit of `x`.
pub open spec fn log2(x: nat) -> nat
    decreases x,
{
    if x < 2 {
        0
    } else {
        1 + log2(x / 2)
    }
}

pub proof fn lemma_log2(x: nat, k: nat)
    requires
        exp2(k) <= x < exp2(k + 1),
    ensures
        log2(x) == k,
    decreases k,
{
    lemma_exp2_pos(k);
    if k > 0 {
        lemma_log2(x / 2, (k - 1) as nat);
    }
}

/// The table entry `(code, extra_bits, extra_value)` of length `len`.
pub open spec fn length_repr_spec(len: nat) -> (u16, u8, u8) {
    if len <= 10 {
        ((len + 254) as u16, 0, 0)
    } else if len == 258 {
        (285, 0, 0)
    } else {
        let x = (len - 3) as nat;
        let e = (log2(x) - 2) as nat;
        ((257 + 4 * e + x / exp2(e)) as u16, e as u8, (x % exp2(e)) as u8)
    }
}

/// The table entry `(code, extra_bits, extra_value)` of distance `dist`.
pub open spec fn dist_repr_spec(dist: nat) -> (u8, u8, u16) {
    if dist <= 4 {
        ((dist - 1) as u8, 0, 0)
    } else {
        let x = (dist - 1) as nat;
        let e = (log2(x) - 1) as nat;
        ((2 * e + x / exp2(e)) as u8, e as u8, (x % exp2(e)) as u16)
    }
}

pub proof fn lemma_log2_bounds(x: nat)
    requires
        x >= 1,
    ensures
        exp2(log2(x)) <= x < exp2(log2(x) + 1),
    decreases x,
{
    if x >= 2 {
        lemma_log2_bounds(x / 2);
    }
}

/// Every match length has a literal/length code in `257..=285`, and the
/// table entry stands for that length.
pub proof fn lemma_length_code_range(len: nat)
    requires
        3 <= len <= 258,
    ensures
        257 <= length_repr_spec(len).0 <= 285,
        length_repr_of(len as int, length_repr_spec(len)),
{
    lemma_exp2_small();
    if 10 < len < 258 {
        let x = (len - 3) as nat;
        lemma_log2_bounds(x);
        let k = log2(x);
        if k > 7 {
            crate::symbol::lemma_exp2_monotone(8, k);
        }
        assert(3 <= k <= 7) by {
            if k < 3 {
                crate::symbol::lemma_exp2_monotone(k + 1, 3);
            }
        }
        let e = (k - 2) as nat;
        let p = exp2(e);
        assert(exp2(k) == 4 * p) by {
            assert(exp2((e + 1) as nat) == 2 * exp2(e));
            assert(exp2((e + 2) as nat) == 2 * exp2((e + 1) as nat));
        }
        assert(exp2(k + 1) == 8 * p);
        lemma_exp2_pos(e);
        let q = x / p;
        let r = x % p;
        assert(4 <= q < 8 && x == q * p + r && r < p) by (nonlinear_arith)
            requires
                4 * p <= x < 8 * p,
                p > 0,
                q == x / p,
                r == x % p,
        ;
        assert(1 <= e <= 5);
        assert(p <= 32) by {
            crate::symbol::lemma_exp2_monotone(e, 5);
        }
        let c = (257 + 4 * e + q) as int;
        assert(length_repr_spec(len) == (c as u16, e as u8, r as u8));
        assert(c - 265 == 4 * (e - 2) + q);
        assert(length_extra_bits(c) == e);
        assert((c - 265) % 4 == q - 4);
        assert(length_base(c) == q * p + 3);
    }
}

/// Every distance has a distance code in `0..=29`, and the table entry
/// stands for that distance.
pub proof fn lemma_dist_code_range(dist: nat)
    requires
        1 <= dist <= 32768,
    ensures
        dist_repr_spec(dist).0 <= 29,
        dist_repr_of(dist as int, dist_repr_spec(dist)),
{
    lemma_exp2_small();
    if dist > 4 {
        let x = (dist - 1) as nat;
        lemma_log2_bounds(x);
        let k = log2(x);
        if k > 14 {
            crate::symbol::lemma_exp2_monotone(15, k);
        }
        assert(2 <= k <= 14) by {
            if k < 2 {
                crate::symbol::lemma_exp2_monotone(k + 1, 2);
            }
        }
        let e = (k - 1) as nat;
        let p = exp2(e);
        assert(exp2(k) == 2 * p);
        assert(exp2(k + 1) == 4 * p);
        lemma_exp2_pos(e);
        let q = x / p;
        let r = x % p;
        assert(2 <= q < 4 && x == q * p + r && r < p) by (nonlinear_arith)
            requires
                2 * p <= x < 4 * p,
                p > 0,
                q == x / p,
                r == x % p,
        ;
        assert(p <= 8192) by {
            crate::symbol::lemma_exp2_monotone(e, 13);
        }
        let c = (2 * e + q) as int;
        assert(dist_repr_spec(dist) == (c as u8, e as u8, r as u16));
        assert(dist_extra_bits(c) == e);
        assert(c % 2 == q - 2);
        assert(dist_base(c) == q * p + 1);
    }
}

/// The length code, extra bit count and extra value of a match length.
pub fn length_repr(len: u16) -> (r: (u16, u8, u8))
    requires
        3 <= len <= 258,
    ensures
        length_repr_of(len as int, r),
        r == length_repr_spec(len as nat),
{
    proof {
        lemma_exp2_small();
    }
    if len <= 10 {
        return (len + 254, 0, 0);
    }
    if len == 258 {
        return (285, 0, 0);
    }
    let x: u32 = (len - 3) as u32;
    let mut e: u32 = 1;
    let mut p: u32 = 2;
    while x >= 8 * p
        invariant
            8 <= x <= 254,
            1 <= e <= 5,
            p == exp2(e as nat),
            x >= 4 * p,
        decreases 8 - e,
    {
        proof {
            lemma_exp2_small();
        }
        p = p * 2;
        e = e + 1;
    }
    let q = x / p;
    let extra = x % p;
    let code = (257 + 4 * e + q) as u16;
    proof {
        assert(4 <= q <= 7) by (nonlinear_arith)
            requires
                q == x / p,
                4 * p <= x < 8 * p,
                p > 0,
        ;
        assert(x == q * p + extra) by (nonlinear_arith)
            requires
                q == x / p,
                extra == x % p,
                p > 0,
        ;
        let c = code as int;
        assert(c - 265 == 4 * (e - 2) + q);
        assert(length_extra_bits(c) == e);
        assert((c - 265) % 4 == q - 4);
        assert(length_base(c) == q * p + 3);
        assert(exp2(e as nat + 2) == 4 * p);
        assert(exp2(e as nat + 3) == 8 * p);
        lemma_log2(x as nat, (e + 2) as nat);
    }
    (code, e as u8, extra as u8)
}

/// The distance code, extra bit count and extra value of a distance.
pub fn dist_repr(dist: u16) -> (r: (u8, u8, u16))
    requires
        1 <= dist <= 32768,
    ensures
        dist_repr_of(dist as int, r),
        r == dist_repr_spec(dist as nat),
{
    proof {
        lemma_exp2_small();
    }
    if dist <= 4 {
        return ((dist - 1) as u8, 0, 0);
    }
    let x: u32 = (dist - 1) as u32;
    let mut e: u32 = 1;
    let mut p: u32 = 2;
    while x >= 4 * p
        invariant
            4 <= x <= 32767,
            1 <= e <= 13,
            p == exp2(e as nat),
            x >= 2 * p,
        decreases 14 - e,
    {
        proof {
            lemma_exp2_small();
        }
        p = p * 2;
        e = e + 1;
    }
    let q = x / p;
    let extra = x % p;
    let code = (2 * e + q) as u8;
    proof {
        assert(2 <= q <= 3) by (nonlinear_arith)
            requires
                q == x / p,
                2 * p <= x < 4 * p,
                p > 0,
        ;
        assert(x == q * p + extra) by (nonlinear_arith)
            requires
                q == x / p,
                extra == x % p,
                p > 0,
        ;
        let c = code as int;
        assert(dist_extra_bits(c) == e);
        assert(c % 2 == q - 2);
        assert(dist_base(c) == q * p + 1);
        assert(exp2(e as nat + 1) == 2 * p);
        assert(exp2(e as nat + 2) == 4 * p);
        lemma_log2(x as nat, (e + 1) as nat);
    }
    (code, e as u8, extra as u16)
}

/// Reverses the order of the low `num` bits of `bits`.
pub fn reverse_bits(bits: u8, num: u32) -> (r: u8)
    requires
        num <= 8,
    ensures
        r as nat == reversed(bits as nat, num as nat),
{
    let mut reversed_acc: u32 = 0;
    let mut rest: u32 = bits as u32;
    let mut i: u32 = 0;
    proof {
        lemma_exp2_small();
    }
    while i < num
        invariant
            i <= num <= 8,
            rest < 256,
            (reversed_acc as nat) < exp2(i as nat),
            reversed(bits as nat, num as nat) == reversed_from(
                rest as nat,
                (num - i) as nat,
                reversed_acc as nat,
            ),
        decreases num - i,
    {
        proof {
            lemma_exp2_pos(i as nat);
            assert(exp2((i + 1) as nat) == 2 * exp2(i as nat));
            lemma_exp2_small();
            lemma_exp2_monotone(i as nat, 7);
        }
        reversed_acc = reversed_acc * 2 + rest % 2;
        rest = rest / 2;
        i = i + 1;
    }
    proof {
        assert(exp2(num as nat) <= 256) by {
            lemma_exp2_small();
            if num < 8 {
                lemma_exp2_monotone(num as nat, 8);
            }
        }
    }
    reversed_acc as u8
}

/// Shifts the low `n` bits of `v`, lowest first, onto the bottom of `acc`.
pub open spec fn reversed_from(v: nat, n: nat, acc: nat) -> nat
    decreases n,
{
    if n == 0 {
        acc
    } else {
        reversed_from(v / 2, (n - 1) as nat, acc * 2 + v % 2)
    }
}

/// The low `n` bits of `v` in the opposite order.
pub open spec fn reversed(v: nat, n: nat) -> nat {
    reversed_from(v, n, 0)
}

pub proof fn lemma_exp2_monotone(a: nat, b: nat)
    requires
        a <= b,
    ensures
        exp2(a) <= exp2(b),
    decreases b - a,
{
    if a < b {
        lemma_exp2_monotone(a, (b - 1) as nat);
        lemma_exp2_pos((b - 1) as nat);
    }
}

} // verus!
