//! Canonical Huffman codes (RFC 1951, section 3.2.2) and their emission.

use vstd::prelude::*;
use crate::bits::{BitSink, exp2, msb_bits, lemma_exp2_small, lemma_exp2_pos};
use crate::error::DecodeError;

verus! {

/// The longest code DEFLATE allows for literal/length and distance codes.
pub const MAX_BITS: u32 = 15;

/// How many of `lens` equal `l`.
pub open spec fn count_len(lens: Seq<u32>, l: nat) -> nat
    decreases lens.len(),
{
    if lens.len() == 0 {
        0
    } else {
        count_len(lens.drop_last(), l) + (if lens.last() == l { 1nat } else { 0 })
    }
}

/// The first code of length `l`: step 2 of RFC 1951, section 3.2.2.
pub open spec fn first_code(lens: Seq<u32>, l: nat) -> nat
    decreases l,
{
    if l <= 1 {
        0
    } else {
        (first_code(lens, (l - 1) as nat) + count_len(lens, (l - 1) as nat)) * 2
    }
}

/// The canonical code of symbol `s`: the first code of its length plus the
/// number of earlier symbols of that length.
pub open spec fn canonical_code(lens: Seq<u32>, s: int) -> nat {
    first_code(lens, lens[s] as nat) + count_len(lens.take(s), lens[s] as nat)
}

/// No length above `max_bits`, and no length over-subscribed: the codes of
/// each length fit in that many bits (the Kraft inequality).
pub open spec fn lengths_fit(lens: Seq<u32>, max_bits: nat) -> bool {
    &&& forall|s: int| 0 <= s < lens.len() ==> #[trigger] lens[s] <= max_bits
    &&& forall|l: nat|
        1 <= l <= max_bits ==> first_code(lens, l) + #[trigger] count_len(lens, l) <= exp2(l)
}

/// How many symbols have a code at all.
pub open spec fn used_count(lens: Seq<u32>) -> nat
    decreases lens.len(),
{
    if lens.len() == 0 {
        0
    } else {
        used_count(lens.drop_last()) + (if lens.last() != 0 { 1nat } else { 0 })
    }
}

/// The longest length in `lens`, 0 for none.
pub open spec fn max_len(lens: Seq<u32>) -> nat
    decreases lens.len(),
{
    if lens.len() == 0 {
        0
    } else if lens.last() as nat > max_len(lens.drop_last()) {
        lens.last() as nat
    } else {
        max_len(lens.drop_last())
    }
}

/// `2^max_bits` times the Kraft sum: the code space the lengths take.
pub open spec fn code_space(lens: Seq<u32>, max_bits: nat) -> nat {
    first_code(lens, max_bits) + count_len(lens, max_bits)
}

/// A code length vector from which a code table can be built: no length
/// above `max_bits`, not over-subscribed, and at most one code of the
/// longest length left unassigned.
pub open spec fn lengths_valid(lens: Seq<u32>, max_bits: nat) -> bool {
    &&& lengths_fit(lens, max_bits)
    &&& code_space(lens, max_bits) + exp2((max_bits - max_len(lens)) as nat) >= exp2(max_bits)
}

/// A code length vector as DEFLATE blocks carry it: the code tree is full,
/// or there is at most one code, of length 1.
pub open spec fn lengths_full(lens: Seq<u32>, max_bits: nat) -> bool {
    &&& lengths_fit(lens, max_bits)
    &&& (code_space(lens, max_bits) == exp2(max_bits) || (used_count(lens) <= 1 && max_len(lens)
        <= 1))
}

/// `(length, canonical code)` of every symbol; unused symbols get `(0, 0)`.
pub open spec fn canon_table(lens: Seq<u32>) -> Seq<(u32, u32)> {
    Seq::new(
        lens.len(),
        |s: int| (lens[s], if lens[s] > 0 { canonical_code(lens, s) as u32 } else { 0u32 }),
    )
}

/// Symbol to `(length, code)`; length 0 marks a symbol outside the alphabet.
pub struct HuffmanCodes {
    lengths: Vec<u32>,
    codes: Vec<u32>,
}

impl HuffmanCodes {
    /// `(length, code)` of every symbol.
    pub closed spec fn view(&self) -> Seq<(u32, u32)> {
        Seq::new(self.lengths.len() as nat, |s: int| (self.lengths@[s], self.codes@[s]))
    }

    pub closed spec fn wf(&self) -> bool {
        &&& self.lengths.len() == self.codes.len()
        &&& forall|s: int|
            0 <= s < self.lengths.len() ==> #[trigger] self.lengths@[s] <= MAX_BITS
    }

    /// The table of the canonical code with lengths `lens`.
    pub open spec fn is_canonical_for(&self, lens: Seq<u32>) -> bool {
        &&& self.wf()
        &&& self@ == canon_table(lens)
    }

    /// The bits that encode symbol `s`, most significant first.
    pub open spec fn code_bits(&self, s: int) -> Seq<bool> {
        msb_bits(self@[s].1 as nat, self@[s].0 as nat)
    }

    /// Number of symbols in the alphabet.
    pub fn len(&self) -> (r: usize)
        requires
            self.wf(),
        ensures
            r == self@.len(),
    {
        self.lengths.len()
    }

    /// `(length, code)` of symbol `s`.
    pub fn code(&self, s: usize) -> (r: (u32, u32))
        requires
            self.wf(),
            s < self@.len(),
        ensures
            r == self@[s as int],
    {
        (self.lengths[s], self.codes[s])
    }

    /// A table in which no symbol has a code yet.
    pub fn empty(n: usize) -> (r: Self)
        ensures
            r.wf(),
            r@.len() == n,
            forall|s: int| 0 <= s < n ==> #[trigger] r@[s] == (0u32, 0u32),
    {
        let mut lengths: Vec<u32> = Vec::new();
        let mut codes: Vec<u32> = Vec::new();
        let mut k: usize = 0;
        while k < n
            invariant
                k <= n,
                lengths.len() == k,
                codes.len() == k,
                forall|s: int| 0 <= s < k ==> lengths@[s] == 0 && codes@[s] == 0,
            decreases n - k,
        {
            lengths.push(0);
            codes.push(0);
            k = k + 1;
        }
        HuffmanCodes { lengths, codes }
    }

    /// Gives `character` the code `code = (length, value)`.
    pub fn set_code(&mut self, character: u16, code: (u32, u32))
        requires
            old(self).wf(),
            (character as int) < old(self)@.len(),
            code.0 <= MAX_BITS,
        ensures
            final(self).wf(),
            final(self)@ == old(self)@.update(character as int, code),
    {
        self.lengths.set(character as usize, code.0);
        self.codes.set(character as usize, code.1);
        proof {
            assert(self@ =~= old(self)@.update(character as int, code));
        }
    }

    /// Builds the canonical code of RFC 1951, section 3.2.2, from code
    /// lengths; symbol `s` gets length `codelens[s]`, 0 meaning unused.
    /// Fails exactly when the lengths admit no such code.
    pub fn build_from_codelens(codelens: &[u32]) -> (r: Result<Self, DecodeError>)
        requires
            codelens@.len() <= u16::MAX + 1,
        ensures
            r is Ok <==> lengths_valid(codelens@, MAX_BITS as nat),
            r matches Ok(t) ==> t.is_canonical_for(codelens@),
    {
        if !check_lengths(codelens, MAX_BITS) {
            return Err(DecodeError::new("invalid code lengths"));
        }
        let n = codelens.len();
        // Step 1: count the codes of each length.
        let bl_count = count_lengths(codelens, MAX_BITS);
        // Step 2: the first code of each length.
        let mut next_code: Vec<u32> = Vec::new();
        next_code.push(0);
        let mut code: u32 = 0;
        let mut bits: usize = 1;
        proof {
            lemma_exp2_small();
        }
        while bits <= 15
            invariant
                1 <= bits <= 16,
                next_code.len() == bits,
                bl_count@.len() == 16,
                forall|l: int| 0 <= l < 16 ==> #[trigger] bl_count@[l] == count_len(codelens@, l as nat),
                lengths_fit(codelens@, MAX_BITS as nat),
                code == first_code(codelens@, bits as nat),
                code <= exp2(bits as nat),
                forall|l: int| 1 <= l < bits ==> #[trigger] next_code@[l] == first_code(codelens@, l as nat),
            decreases 16 - bits,
        {
            next_code.push(code);
            proof {
                lemma_exp2_small();
                assert(first_code(codelens@, bits as nat) + count_len(codelens@, bits as nat) <= exp2(bits as nat));
                assert(exp2((bits + 1) as nat) == 2 * exp2(bits as nat));
                assert(exp2(bits as nat) <= 32768) by {
                    crate::symbol::lemma_exp2_monotone(bits as nat, 15);
                }
            }
            code = (code + bl_count[bits] as u32) * 2;
            bits = bits + 1;
        }
        // Step 3: consecutive codes within each length, in symbol order.
        let mut table = HuffmanCodes::empty(n);
        let mut s: usize = 0;
        while s < n
            invariant
                s <= n == codelens@.len() <= u16::MAX + 1,
                lengths_fit(codelens@, MAX_BITS as nat),
                next_code.len() == 16,
                forall|l: int| 1 <= l < 16 ==> #[trigger] next_code@[l] == first_code(codelens@, l as nat) + count_len(codelens@.take(s as int), l as nat),
                table.wf(),
                table@.len() == n,
                forall|t: int| 0 <= t < s ==> #[trigger] table@[t] == canon_table(codelens@)[t],
                forall|t: int| s <= t < n ==> #[trigger] table@[t] == (0u32, 0u32),
            decreases n - s,
        {
            let len = codelens[s];
            proof {
                assert(codelens@.take(s as int + 1).drop_last() =~= codelens@.take(s as int));
                assert(codelens@.take(s as int + 1).last() == len);
            }
            if len != 0 {
                let c = next_code[len as usize];
                proof {
                    lemma_count_len_prefix_bound(codelens@, s as int + 1, len as nat);
                    lemma_exp2_small();
                    crate::symbol::lemma_exp2_monotone(len as nat, 15);
                    assert(first_code(codelens@, len as nat) + count_len(codelens@, len as nat) <= exp2(len as nat));
                }
                next_code.set(len as usize, c + 1);
                table.set_code(s as u16, (len, c));
            }
            s = s + 1;
        }
        proof {
            assert(table@ =~= canon_table(codelens@));
        }
        Ok(table)
    }

    /// Appends the code of `character`, most significant bit first.
    pub fn encode_char(&self, sink: &mut BitSink, character: u16)
        requires
            self.wf(),
            old(sink).wf(),
            (character as int) < self@.len(),
        ensures
            final(sink).wf(),
            final(sink)@ == old(sink)@ + self.code_bits(character as int),
    {
        let len = self.lengths[character as usize];
        let code = self.codes[character as usize];
        sink.write_code(len, code);
    }
}

/// `r[l]` is how many of `lens` equal `l`, for every `l <= max_bits`.
fn count_lengths(lens: &[u32], max_bits: u32) -> (r: Vec<usize>)
    requires
        max_bits <= 15,
        forall|s: int| 0 <= s < lens@.len() ==> #[trigger] lens@[s] <= max_bits,
    ensures
        r@.len() == 16,
        forall|l: int| 0 <= l < 16 ==> #[trigger] r@[l] == count_len(lens@, l as nat),
{
    let mut r: Vec<usize> = Vec::new();
    let mut k: usize = 0;
    while k < 16
        invariant
            k <= 16,
            r.len() == k,
            forall|l: int| 0 <= l < k ==> r@[l] == 0,
        decreases 16 - k,
    {
        r.push(0);
        k = k + 1;
    }
    let mut s: usize = 0;
    while s < lens.len()
        invariant
            s <= lens@.len(),
            max_bits <= 15,
            r@.len() == 16,
            forall|t: int| 0 <= t < lens@.len() ==> #[trigger] lens@[t] <= max_bits,
            forall|l: int| 0 <= l < 16 ==> #[trigger] r@[l] == count_len(lens@.take(s as int), l as nat),
        decreases lens@.len() - s,
    {
        let l = lens[s] as usize;
        proof {
            assert(lens@[s as int] <= max_bits);
            assert(lens@.take(s as int + 1).drop_last() =~= lens@.take(s as int));
            lemma_count_len_le_len(lens@.take(s as int), l as nat);
        }
        r.set(l, r[l] + 1);
        s = s + 1;
    }
    proof {
        assert(lens@.take(lens@.len() as int) =~= lens@);
    }
    r
}

/// Whether `lens` fits in `max_bits` bits (see `lengths_fit`); if so, its
/// code space, how many symbols it codes and its longest length.
fn length_summary(lens: &[u32], max_bits: u32) -> (r: Option<(usize, usize, u32)>)
    requires
        1 <= max_bits <= 15,
    ensures
        r is Some <==> lengths_fit(lens@, max_bits as nat),
        r matches Some((k, used, maxl)) ==> k == code_space(lens@, max_bits as nat) && used
            == used_count(lens@) && maxl == max_len(lens@) && maxl <= max_bits && k <= exp2(
            max_bits as nat,
        ),
{
    let mut s: usize = 0;
    let mut used: usize = 0;
    let mut maxl: u32 = 0;
    while s < lens.len()
        invariant
            s <= lens@.len(),
            forall|t: int| 0 <= t < s ==> #[trigger] lens@[t] <= max_bits,
            used == used_count(lens@.take(s as int)),
            maxl == max_len(lens@.take(s as int)),
            maxl <= max_bits,
            used <= s,
        decreases lens@.len() - s,
    {
        proof {
            assert(lens@.take(s as int + 1).drop_last() =~= lens@.take(s as int));
        }
        if lens[s] > max_bits {
            return None;
        }
        if lens[s] != 0 {
            used = used + 1;
        }
        if lens[s] > maxl {
            maxl = lens[s];
        }
        s = s + 1;
    }
    proof {
        assert(lens@.take(lens@.len() as int) =~= lens@);
    }
    let bl_count = count_lengths(lens, max_bits);
    let mut code: usize = 0;
    let mut bits: u32 = 1;
    let mut limit: usize = 2;
    proof {
        lemma_exp2_small();
    }
    while bits <= max_bits
        invariant
            1 <= bits <= max_bits,
            forall|t: int| 0 <= t < lens@.len() ==> #[trigger] lens@[t] <= max_bits,
            used == used_count(lens@),
            maxl == max_len(lens@),
            maxl <= max_bits,
            max_bits <= 15,
            bl_count@.len() == 16,
            forall|l: int| 0 <= l < 16 ==> #[trigger] bl_count@[l] == count_len(lens@, l as nat),
            limit == exp2(bits as nat),
            code == first_code(lens@, bits as nat),
            code <= limit,
            forall|l: nat| 1 <= l < bits ==> first_code(lens@, l) + #[trigger] count_len(lens@, l) <= exp2(l),
        decreases max_bits + 1 - bits,
    {
        proof {
            lemma_exp2_small();
            crate::symbol::lemma_exp2_monotone(bits as nat, 15);
        }
        if bl_count[bits as usize] > limit - code {
            proof {
                assert(!lengths_fit(lens@, max_bits as nat)) by {
                    assert(first_code(lens@, bits as nat) + count_len(lens@, bits as nat) > exp2(bits as nat));
                }
            }
            return None;
        }
        if bits == max_bits {
            let k = code + bl_count[bits as usize];
            proof {
                assert forall|l: nat| 1 <= l <= max_bits implies first_code(lens@, l)
                    + #[trigger] count_len(lens@, l) <= exp2(l) by {
                    if l == bits {
                        assert(bl_count@[l as int] == count_len(lens@, l));
                    }
                }
                assert(lengths_fit(lens@, max_bits as nat));
                assert(bl_count@[bits as int] == count_len(lens@, bits as nat));
            }
            return Some((k, used, maxl));
        }
        code = (code + bl_count[bits as usize]) * 2;
        limit = limit * 2;
        bits = bits + 1;
    }
    None
}

/// `2^e` for `e <= 15`.
fn pow2_small(e: u32) -> (r: usize)
    requires
        e <= 15,
    ensures
        r == exp2(e as nat),
{
    let mut r: usize = 1;
    let mut j: u32 = 0;
    while j < e
        invariant
            j <= e <= 15,
            r == exp2(j as nat),
        decreases e - j,
    {
        proof {
            lemma_exp2_small();
            crate::symbol::lemma_exp2_monotone(j as nat, 15);
        }
        r = r * 2;
        j = j + 1;
    }
    r
}

/// Whether a code table can be built from `lens` (see `lengths_valid`).
pub fn check_lengths(lens: &[u32], max_bits: u32) -> (r: bool)
    requires
        1 <= max_bits <= 15,
    ensures
        r == lengths_valid(lens@, max_bits as nat),
{
    proof {
        lemma_exp2_small();
        crate::symbol::lemma_exp2_monotone(max_bits as nat, 15);
    }
    match length_summary(lens, max_bits) {
        None => false,
        Some((k, _used, maxl)) => {
            proof {
                crate::symbol::lemma_exp2_monotone((max_bits - maxl) as nat, 15);
            }
            k + pow2_small(max_bits - maxl) >= pow2_small(max_bits)
        },
    }
}

/// Whether `lens` is as DEFLATE blocks carry it (see `lengths_full`).
pub fn check_full_lengths(lens: &[u32], max_bits: u32) -> (r: bool)
    requires
        1 <= max_bits <= 15,
    ensures
        r == lengths_full(lens@, max_bits as nat),
{
    match length_summary(lens, max_bits) {
        None => false,
        Some((k, used, maxl)) => k == pow2_small(max_bits) || (used <= 1 && maxl <= 1),
    }
}

/// The longest length is one of the lengths, and bounds them all.
pub proof fn lemma_max_len(lens: Seq<u32>)
    ensures
        forall|s: int| 0 <= s < lens.len() ==> #[trigger] lens[s] <= max_len(lens),
        max_len(lens) > 0 ==> count_len(lens, max_len(lens)) >= 1,
    decreases lens.len(),
{
    if lens.len() > 0 {
        let d = lens.drop_last();
        lemma_max_len(d);
        assert forall|s: int| 0 <= s < lens.len() implies #[trigger] lens[s] <= max_len(lens) by {
            if s < d.len() {
                assert(lens[s] == d[s]);
            }
        }
        if max_len(lens) > 0 && max_len(lens) != lens.last() {
            assert(max_len(lens) == max_len(d));
        }
    }
}

/// Full lengths are valid ones.
pub proof fn lemma_full_valid(lens: Seq<u32>, m: nat)
    requires
        lengths_full(lens, m),
        1 <= m <= 15,
    ensures
        lengths_valid(lens, m),
{
    lemma_max_len(lens);
    lemma_exp2_pos((m - max_len(lens)) as nat);
    if code_space(lens, m) != exp2(m) {
        if max_len(lens) == 1 {
            assert(count_len(lens, 1) >= 1);
            lemma_exp2_small();
            if m > 1 {
                lemma_first_code_grows(lens, 1, m);
                assert(first_code(lens, 1) == 0);
                assert(exp2(m) == 2 * exp2((m - 1) as nat)) by {
                    assert(exp2(m) == 2 * exp2((m - 1) as nat));
                }
                assert(exp2((m - 1 - 1) as nat) * 2 == exp2((m - 1) as nat)) by {
                    assert(exp2((m - 1) as nat) == 2 * exp2((m - 2) as nat));
                }
                assert(first_code(lens, m) >= count_len(lens, 1) * exp2((m - 1 - 1) as nat) * 2)
                    by (nonlinear_arith)
                    requires
                        first_code(lens, m) >= (first_code(lens, 1) + count_len(lens, 1)) * exp2(
                            (m - 1 - 1) as nat,
                        ) * 2,
                        first_code(lens, 1) == 0,
                ;
                assert(count_len(lens, 1) * exp2((m - 1 - 1) as nat) * 2 >= exp2((m - 1) as nat))
                    by (nonlinear_arith)
                    requires
                        count_len(lens, 1) >= 1,
                        exp2((m - 1 - 1) as nat) * 2 == exp2((m - 1) as nat),
                ;
            }
        } else {
            assert(max_len(lens) == 0);
        }
    }
}

/// No value occurs more often than the sequence is long.
proof fn lemma_count_len_le_len(lens: Seq<u32>, l: nat)
    ensures
        count_len(lens, l) <= lens.len(),
    decreases lens.len(),
{
    if lens.len() > 0 {
        lemma_count_len_le_len(lens.drop_last(), l);
    }
}

/// The count over a prefix never exceeds the count over the whole.
proof fn lemma_count_len_prefix_bound(lens: Seq<u32>, k: int, l: nat)
    requires
        0 <= k <= lens.len(),
    ensures
        count_len(lens.take(k), l) <= count_len(lens, l),
        k == lens.len() ==> lens.take(k) == lens,
    decreases lens.len() - k,
{
    if k < lens.len() {
        lemma_count_len_prefix_bound(lens, k + 1, l);
        assert(lens.take(k + 1).drop_last() =~= lens.take(k));
    } else {
        assert(lens.take(k) =~= lens);
    }
}


/// An item of the package-merge lists: its weight and the leaves it holds.
struct Package {
    weight: u64,
    symbols: Vec<u16>,
}

/// The lengths that `limited_codelens_from_freq` promises: a length in
/// `1..=max_bits` for every symbol that occurs, 0 for every other.
pub open spec fn lengths_cover(freqs: Seq<u32>, lens: Seq<u32>, max_bits: nat) -> bool {
    &&& lens.len() == freqs.len()
    &&& forall|s: int|
        0 <= s < freqs.len() ==> (#[trigger] freqs[s] == 0 ==> lens[s] == 0) && (freqs[s] > 0 ==> 1
            <= lens[s] <= max_bits)
}

/// Inserts `p` into `list`, kept in ascending weight, after equal weights.
fn insert_sorted(list: &mut Vec<Package>, p: Package) {
    let mut i: usize = list.len();
    while i > 0 && list[i - 1].weight > p.weight
        invariant
            i <= list.len(),
        decreases i,
    {
        i = i - 1;
    }
    list.insert(i, p);
}

/// Merges two lists sorted by weight; on equal weights `a` comes first.
fn merge_packages(a: &Vec<Package>, b: Vec<Package>) -> (r: Vec<Package>) {
    let mut out: Vec<Package> = Vec::new();
    let mut i: usize = 0;
    let mut rest = b;
    // `rest` is consumed from the front; reverse it once so pops are cheap.
    let mut rev: Vec<Package> = Vec::new();
    while rest.len() > 0
        decreases rest.len(),
    {
        let p = rest.pop().unwrap();
        rev.push(p);
    }
    while i < a.len() || rev.len() > 0
        invariant
            i <= a.len(),
        decreases a.len() - i + rev.len(),
    {
        let take_a = if i < a.len() && rev.len() > 0 {
            a[i].weight <= rev[rev.len() - 1].weight
        } else {
            i < a.len()
        };
        if take_a {
            out.push(Package { weight: a[i].weight, symbols: a[i].symbols.clone() });
            i = i + 1;
        } else {
            let p = rev.pop().unwrap();
            out.push(p);
        }
    }
    out
}

/// Pairs consecutive items into packages; `None` if a weight overflows.
fn package_pairs(list: &Vec<Package>) -> (r: Option<Vec<Package>>) {
    let mut out: Vec<Package> = Vec::new();
    let mut k: usize = 0;
    while list.len() - k >= 2
        invariant
            k <= list.len(),
        decreases list.len() - k,
    {
        let w = list[k].weight.checked_add(list[k + 1].weight);
        match w {
            None => {
                return None;
            },
            Some(weight) => {
                let mut symbols = list[k].symbols.clone();
                let mut j: usize = 0;
                while j < list[k + 1].symbols.len()
                    invariant
                        k + 1 < list.len(),
                    decreases list@[k + 1].symbols@.len() - j,
                {
                    symbols.push(list[k + 1].symbols[j]);
                    j = j + 1;
                }
                out.push(Package { weight, symbols });
            },
        }
        k = k + 2;
    }
    Some(out)
}

/// Code lengths by package-merge: `None` where the merge could not finish.
fn package_merge(frequencies: &[u32], max_bits: u32, used: usize) -> (r: Option<Vec<u32>>)
    requires
        2 <= used <= 32768,
    ensures
        r matches Some(v) ==> v@.len() == frequencies@.len(),
{
    let mut leaves: Vec<Package> = Vec::new();
    let mut s: usize = 0;
    while s < frequencies.len()
        invariant
            s <= frequencies@.len(),
        decreases frequencies@.len() - s,
    {
        if frequencies[s] > 0 && s <= u16::MAX as usize {
            let mut symbols: Vec<u16> = Vec::new();
            symbols.push(s as u16);
            insert_sorted(&mut leaves, Package { weight: frequencies[s] as u64, symbols });
        }
        s = s + 1;
    }
    let mut current: Vec<Package> = merge_packages(&leaves, Vec::new());
    let mut level: u32 = 1;
    while level < max_bits
        invariant
            level >= 1,
        decreases max_bits - level,
    {
        match package_pairs(&current) {
            None => {
                return None;
            },
            Some(packages) => {
                current = merge_packages(&leaves, packages);
            },
        }
        level = level + 1;
    }
    let mut lens: Vec<u32> = Vec::new();
    let mut k: usize = 0;
    while k < frequencies.len()
        invariant
            k <= frequencies@.len(),
            lens@.len() == k,
        decreases frequencies@.len() - k,
    {
        lens.push(0);
        k = k + 1;
    }
    let take = 2 * used - 2;
    let mut i: usize = 0;
    while i < take && i < current.len()
        invariant
            lens@.len() == frequencies@.len(),
        decreases take - i,
    {
        let mut j: usize = 0;
        while j < current[i].symbols.len()
            invariant
                i < current.len(),
                lens@.len() == frequencies@.len(),
            decreases current@[i as int].symbols@.len() - j,
        {
            let sym = current[i].symbols[j] as usize;
            if sym < lens.len() && lens[sym] < u32::MAX {
                lens.set(sym, lens[sym] + 1);
            }
            j = j + 1;
        }
        i = i + 1;
    }
    Some(lens)
}

/// Code lengths for symbols with the given frequencies, none longer than
/// `max_bits`, built by package-merge to minimise the encoded size. Every
/// symbol that occurs gets a length in `1..=max_bits`, every other 0, and
/// the lengths form a valid code.
pub fn limited_codelens_from_freq(frequencies: &[u32], max_bits: u32) -> (r: Vec<u32>)
    requires
        1 <= max_bits <= 15,
        used_count(frequencies@) <= exp2(max_bits as nat),
    ensures
        lengths_cover(frequencies@, r@, max_bits as nat),
        lengths_full(r@, max_bits as nat),
        lengths_valid(r@, max_bits as nat),
        used_count(frequencies@) == 1 ==> forall|s: int|
            0 <= s < frequencies@.len() && #[trigger] frequencies@[s] > 0 ==> r@[s] == 1,
{
    let n = frequencies.len();
    let mut used: usize = 0;
    let mut s: usize = 0;
    while s < n
        invariant
            s <= n == frequencies@.len(),
            used == used_count(frequencies@.take(s as int)),
            used <= s,
        decreases n - s,
    {
        proof {
            assert(frequencies@.take(s as int + 1).drop_last() =~= frequencies@.take(s as int));
        }
        if frequencies[s] > 0 {
            used = used + 1;
        }
        s = s + 1;
    }
    proof {
        assert(frequencies@.take(n as int) =~= frequencies@);
        lemma_exp2_small();
        crate::symbol::lemma_exp2_monotone(max_bits as nat, 15);
    }
    // Package-merge is proved safe here, not optimal: its lengths are kept
    // only when they pass `check_full_lengths`, otherwise a balanced code is
    // used.
    if used >= 2 {
        if let Some(merged) = package_merge(frequencies, max_bits, used) {
            let mut lens: Vec<u32> = Vec::new();
            let mut ok = true;
            let mut s: usize = 0;
            while s < n
                invariant
                    s <= n == frequencies@.len(),
                    merged@.len() == n,
                    lens@.len() == s,
                    ok ==> forall|t: int|
                        0 <= t < s ==> (#[trigger] frequencies@[t] == 0 ==> lens@[t] == 0) && (
                        frequencies@[t] > 0 ==> 1 <= lens@[t] <= max_bits),
                decreases n - s,
            {
                let l = merged[s];
                if frequencies[s] == 0 {
                    lens.push(0);
                } else {
                    if l < 1 || l > max_bits {
                        ok = false;
                    }
                    lens.push(l);
                }
                s = s + 1;
            }
            if ok && check_full_lengths(&lens, max_bits) {
                proof {
                    lemma_full_valid(lens@, max_bits as nat);
                }
                return lens;
            }
        }
    }
    let r = balanced_lengths(frequencies, max_bits, used);
    proof {
        lemma_full_valid(r@, max_bits as nat);
    }
    r
}

/// The levels of a code with `na` lengths of `b - 1` and `nb` of `b`.
pub open spec fn two_levels(lens: Seq<u32>, b: nat, na: nat, nb: nat) -> bool {
    &&& b >= 1
    &&& (b == 1 ==> na == 0)
    &&& forall|l: nat|
        l >= 1 ==> #[trigger] count_len(lens, l) == (if b >= 2 && l == b - 1 {
            na
        } else if l == b {
            nb
        } else {
            0
        })
}

/// First codes of a code that uses lengths `b - 1` and `b` only.
proof fn lemma_two_levels_first_code(lens: Seq<u32>, b: nat, na: nat, nb: nat, l: nat)
    requires
        two_levels(lens, b, na, nb),
        l >= 1,
    ensures
        l < b ==> first_code(lens, l) == 0,
        l == b ==> first_code(lens, l) == 2 * na,
        l > b ==> first_code(lens, l) == (2 * na + nb) * exp2((l - b) as nat),
    decreases l,
{
    if l == 1 {
        if b == 1 {
            assert(first_code(lens, 1) == 0);
        }
    } else {
        lemma_two_levels_first_code(lens, b, na, nb, (l - 1) as nat);
        assert(first_code(lens, l) == (first_code(lens, (l - 1) as nat) + count_len(
            lens,
            (l - 1) as nat,
        )) * 2);
        if l > b + 1 {
            let e = exp2((l - 1 - b) as nat);
            assert(exp2((l - b) as nat) == 2 * e);
            assert(((2 * na + nb) * e + 0) * 2 == (2 * na + nb) * (2 * e)) by (nonlinear_arith);
        } else if l == b + 1 {
            assert(exp2(1) == 2) by {
                lemma_exp2_small();
            }
        }
    }
}

/// A code with `na` lengths of `b - 1` and `nb` of `b` fits when it
/// oversubscribes neither level, and is full when the second is exactly full.
proof fn lemma_two_levels_valid(lens: Seq<u32>, b: nat, na: nat, nb: nat, m: nat)
    requires
        two_levels(lens, b, na, nb),
        b <= m,
        forall|s: int| 0 <= s < lens.len() ==> #[trigger] lens[s] <= m,
        b >= 2 ==> na <= exp2((b - 1) as nat),
        2 * na + nb <= exp2(b),
    ensures
        lengths_fit(lens, m),
        2 * na + nb == exp2(b) ==> first_code(lens, m) + count_len(lens, m) == exp2(m),
{
    assert forall|l: nat| 1 <= l <= m implies first_code(lens, l) + #[trigger] count_len(lens, l)
        <= exp2(l) by {
        lemma_two_levels_first_code(lens, b, na, nb, l);
        lemma_exp2_pos(l);
        if l > b {
            lemma_exp2_add(b, (l - b) as nat);
            assert((2 * na + nb) * exp2((l - b) as nat) <= exp2(b) * exp2((l - b) as nat))
                by (nonlinear_arith)
                requires
                    2 * na + nb <= exp2(b),
            ;
        }
    }
    if 2 * na + nb == exp2(b) {
        lemma_two_levels_first_code(lens, b, na, nb, m);
        if m > b {
            lemma_exp2_add(b, (m - b) as nat);
        }
    }
}

/// A valid code for the symbols that occur: lengths `b - 1` and `b`, where
/// `2^b` is the least power of two not below their number.
fn balanced_lengths(frequencies: &[u32], max_bits: u32, used: usize) -> (r: Vec<u32>)
    requires
        1 <= max_bits <= 15,
        used == used_count(frequencies@),
        used <= exp2(max_bits as nat),
    ensures
        lengths_cover(frequencies@, r@, max_bits as nat),
        lengths_full(r@, max_bits as nat),
        used <= 1 ==> forall|s: int|
            0 <= s < frequencies@.len() && #[trigger] frequencies@[s] > 0 ==> r@[s] == 1,
{
    proof {
        lemma_exp2_small();
        crate::symbol::lemma_exp2_monotone(max_bits as nat, 15);
    }
    let mut b: u32 = 1;
    let mut p: usize = 2;
    while p < used
        invariant
            1 <= b <= max_bits <= 15,
            p == exp2(b as nat),
            used <= exp2(max_bits as nat) <= 32768,
            b >= 2 ==> exp2((b - 1) as nat) < used,
        decreases max_bits - b,
    {
        proof {
            if b >= max_bits {
                crate::symbol::lemma_exp2_monotone(max_bits as nat, b as nat);
            }
        }
        b = b + 1;
        p = p * 2;
    }
    let k: usize = if used >= 2 { p - used } else { 0 };
    proof {
        if used >= 2 && b >= 2 {
            assert(exp2(b as nat) == 2 * exp2((b - 1) as nat));
        }
        assert(k < used || used == 0);
        assert(b >= 2 || k == 0);
    }
    let n = frequencies.len();
    let mut lens: Vec<u32> = Vec::new();
    let mut na: usize = 0;
    let mut nb: usize = 0;
    let mut s: usize = 0;
    proof {
        assert(frequencies@.take(0) =~= Seq::<u32>::empty());
    }
    while s < n
        invariant
            s <= n == frequencies@.len(),
            lens@.len() == s,
            1 <= b <= max_bits,
            b >= 2 || k == 0,
            na <= k,
            na < k ==> nb == 0,
            na + nb == used_count(frequencies@.take(s as int)),
            used_count(lens@) == na + nb,
            two_levels(lens@, b as nat, na as nat, nb as nat),
            forall|t: int|
                0 <= t < s ==> (#[trigger] frequencies@[t] == 0 ==> lens@[t] == 0) && (
                frequencies@[t] > 0 ==> 1 <= lens@[t] <= max_bits),
            used <= 1 ==> b == 1 && k == 0,
            forall|t: int| 0 <= t < s ==> #[trigger] lens@[t] <= b,
        decreases n - s,
    {
        let ghost before = lens@;
        proof {
            assert(frequencies@.take(s as int + 1).drop_last() =~= frequencies@.take(s as int));
            lemma_count_len_le_len(frequencies@.take(s as int), 0);
            lemma_used_count_le_len(frequencies@.take(s as int));
        }
        if frequencies[s] == 0 {
            lens.push(0);
        } else if na < k {
            lens.push(b - 1);
            na = na + 1;
        } else {
            lens.push(b);
            nb = nb + 1;
        }
        proof {
            assert(lens@.drop_last() =~= before);
            assert forall|l: nat| l >= 1 implies #[trigger] count_len(lens@, l) == (if b >= 2 && l
                == b - 1 {
                na as nat
            } else if l == b {
                nb as nat
            } else {
                0
            }) by {
                assert(count_len(lens@, l) == count_len(before, l) + (if lens@.last() == l {
                    1nat
                } else {
                    0
                }));
            }
        }
        s = s + 1;
    }
    proof {
        assert(frequencies@.take(n as int) =~= frequencies@);
        assert(forall|t: int| 0 <= t < lens@.len() ==> #[trigger] lens@[t] <= max_bits) by {
            assert forall|t: int| 0 <= t < lens@.len() implies #[trigger] lens@[t] <= max_bits by {
                assert(frequencies@[t] == 0 || frequencies@[t] > 0);
            }
        }
        if used >= 2 {
            assert(na == k);
            assert(2 * na + nb == exp2(b as nat));
            if b >= 2 {
                assert(exp2(b as nat) == 2 * exp2((b - 1) as nat));
            }
        } else {
            assert(2 * na + nb <= 2);
        }
        lemma_two_levels_valid(lens@, b as nat, na as nat, nb as nat, max_bits as nat);
        if used <= 1 {
            lemma_max_len(lens@);
            assert(max_len(lens@) <= 1) by {
                if max_len(lens@) > 1 {
                    lemma_count_len_zero_above_huff(lens@, 1, max_len(lens@));
                }
            }
            assert forall|s: int| 0 <= s < frequencies@.len() && #[trigger] frequencies@[s] > 0
                implies lens@[s] == 1 by {
                assert(frequencies@[s] == 0 || frequencies@[s] > 0);
            }
        }
    }
    lens
}

/// No length above `m` occurs in lengths bounded by `m`.
proof fn lemma_count_len_zero_above_huff(lens: Seq<u32>, m: nat, l: nat)
    requires
        forall|s: int| 0 <= s < lens.len() ==> #[trigger] lens[s] <= m,
        l > m,
    ensures
        count_len(lens, l) == 0,
    decreases lens.len(),
{
    if lens.len() > 0 {
        assert(lens[lens.len() - 1] <= m);
        lemma_count_len_zero_above_huff(lens.drop_last(), m, l);
    }
}

/// Dropping trailing unused lengths keeps the count of every length.
pub proof fn lemma_count_len_trim(lens: Seq<u32>, n: int, l: nat)
    requires
        0 <= n <= lens.len(),
        l >= 1,
        forall|k: int| n <= k < lens.len() ==> #[trigger] lens[k] == 0,
    ensures
        count_len(lens.take(n), l) == count_len(lens, l),
        used_count(lens.take(n)) == used_count(lens),
        max_len(lens.take(n)) == max_len(lens),
    decreases lens.len() - n,
{
    if n == lens.len() {
        assert(lens.take(n) =~= lens);
    } else {
        let d = lens.drop_last();
        assert(d.take(n) =~= lens.take(n));
        lemma_count_len_trim(d, n, l);
    }
}

/// First codes depend on the counts of each length alone.
proof fn lemma_first_code_same_counts(a: Seq<u32>, b: Seq<u32>, l: nat)
    requires
        forall|k: nat| k >= 1 ==> #[trigger] count_len(a, k) == count_len(b, k),
    ensures
        first_code(a, l) == first_code(b, l),
    decreases l,
{
    if l > 1 {
        lemma_first_code_same_counts(a, b, (l - 1) as nat);
        assert(count_len(a, (l - 1) as nat) == count_len(b, (l - 1) as nat));
    }
}

/// Dropping trailing unused lengths keeps full lengths full.
pub proof fn lemma_trim_valid(lens: Seq<u32>, n: int, m: nat)
    requires
        lengths_full(lens, m),
        1 <= m <= 15,
        0 <= n <= lens.len(),
        forall|k: int| n <= k < lens.len() ==> #[trigger] lens[k] == 0,
    ensures
        lengths_full(lens.take(n), m),
        lengths_valid(lens.take(n), m),
{
    let t = lens.take(n);
    assert forall|k: nat| k >= 1 implies #[trigger] count_len(t, k) == count_len(lens, k) by {
        lemma_count_len_trim(lens, n, k);
    }
    lemma_count_len_trim(lens, n, 1);
    assert forall|l: nat| 1 <= l <= m implies first_code(t, l) + #[trigger] count_len(t, l) <= exp2(
        l,
    ) by {
        lemma_first_code_same_counts(t, lens, l);
        assert(count_len(lens, l) == count_len(t, l));
    }
    assert forall|s: int| 0 <= s < t.len() implies #[trigger] t[s] <= m by {
        assert(t[s] == lens[s]);
    }
    lemma_first_code_same_counts(t, lens, m);
    assert(count_len(lens, m) == count_len(t, m));
    lemma_full_valid(t, m);
}

/// No more entries are used than there are.
pub proof fn lemma_used_count_le_len(lens: Seq<u32>)
    ensures
        used_count(lens) <= lens.len(),
    decreases lens.len(),
{
    if lens.len() > 0 {
        lemma_used_count_le_len(lens.drop_last());
    }
}


/// The bits of `code`, most significant first, as a vector.
fn code_path(len: u32, code: u32) -> (r: Vec<bool>)
    requires
        len <= 32,
    ensures
        r@ == msb_bits(code as nat, len as nat),
{
    let mut path: Vec<bool> = Vec::new();
    let mut k: u32 = len;
    proof {
        crate::bits::lemma_msb_bits_len(code as nat / exp2(len as nat), 0);
        assert(path@ =~= msb_bits(code as nat / exp2(len as nat), 0));
    }
    while k > 0
        invariant
            k <= len <= 32,
            path@ == msb_bits(code as nat / exp2(k as nat), (len - k) as nat),
        decreases k,
    {
        let bit = ((code >> (k - 1)) & 1) == 1;
        proof {
            let c = code as nat;
            let km = (k - 1) as nat;
            let q = c / exp2(km);
            lemma_exp2_pos(km);
            assert(c / exp2(k as nat) == q / 2) by {
                vstd::arithmetic::div_mod::lemma_div_denominator(c as int, exp2(km) as int, 2);
                assert(exp2(k as nat) == exp2(km) * 2);
            }
            crate::bits::lemma_shr_bit(code, (k - 1) as u32);
            assert(msb_bits(q, (len - k + 1) as nat) == msb_bits(q / 2, (len - k) as nat).push(
                q % 2 == 1,
            ));
        }
        path.push(bit);
        k = k - 1;
    }
    proof {
        assert(exp2(0) == 1);
        assert(code as nat / exp2(0) == code as nat);
    }
    path
}

/// A binary code tree: a `false` bit leads left, a `true` bit right, and a
/// leaf holds the symbol its path encodes.
pub struct HuffmanTree {
    character: Option<u16>,
    left: Option<Box<HuffmanTree>>,
    right: Option<Box<HuffmanTree>>,
}

impl HuffmanTree {
    /// The symbol whose code is exactly `path`, if any.
    pub closed spec fn symbol_at(&self, path: Seq<bool>) -> Option<u16>
        decreases path.len(),
    {
        if path.len() == 0 {
            if self.left.is_none() && self.right.is_none() {
                self.character
            } else {
                None
            }
        } else {
            let child = if path[0] {
                self.right
            } else {
                self.left
            };
            match child {
                Some(c) => c.symbol_at(path.drop_first()),
                None => None,
            }
        }
    }

    /// The node has no children.
    pub closed spec fn leaf(&self) -> bool {
        self.left.is_none() && self.right.is_none()
    }

    /// A node with no children.
    pub fn new(character: Option<u16>) -> (r: Self)
        ensures
            r.leaf(),
            r.shaped(true),
            r.symbol_at(Seq::empty()) == character,
            forall|p: Seq<bool>| p.len() > 0 ==> #[trigger] r.symbol_at(p) is None,
    {
        HuffmanTree { character, left: None, right: None }
    }

    pub fn is_leaf(&self) -> (r: bool)
        ensures
            r == self.leaf(),
            r ==> forall|p: Seq<bool>| p.len() > 0 ==> #[trigger] self.symbol_at(p) is None,
    {
        self.left.is_none() && self.right.is_none()
    }

    /// Every leaf holds a symbol and no inner node does; with `root`, the
    /// tree may also be a single empty leaf.
    pub closed spec fn shaped(&self, root: bool) -> bool
        decreases self,
    {
        if self.left.is_none() && self.right.is_none() {
            root || self.character.is_some()
        } else {
            &&& self.character.is_none()
            &&& match self.left {
                Some(c) => c.shaped(false),
                None => true,
            }
            &&& match self.right {
                Some(c) => c.shaped(false),
                None => true,
            }
        }
    }

    /// A tree whose leaves all hold symbols decodes at least one path.
    proof fn lemma_has_code(&self)
        requires
            self.shaped(false),
        ensures
            exists|q: Seq<bool>| #[trigger] self.symbol_at(q) is Some,
        decreases self,
    {
        if self.left.is_none() && self.right.is_none() {
            assert(self.symbol_at(Seq::empty()) is Some);
        } else if self.left.is_some() {
            let c = *self.left.unwrap();
            c.lemma_has_code();
            let q2 = choose|q: Seq<bool>| #[trigger] c.symbol_at(q) is Some;
            let q = seq![false] + q2;
            assert(q.drop_first() =~= q2);
            assert(self.symbol_at(q) is Some);
        } else {
            let c = *self.right.unwrap();
            c.lemma_has_code();
            let q2 = choose|q: Seq<bool>| #[trigger] c.symbol_at(q) is Some;
            let q = seq![true] + q2;
            assert(q.drop_first() =~= q2);
            assert(self.symbol_at(q) is Some);
        }
    }

    /// Adds `symbol` with the code `path[i..]`. Fails exactly where that code
    /// and a code already present are equal or one is a prefix of the other.
    fn insert(self, path: &Vec<bool>, i: usize, symbol: u16) -> (r: Result<Self, DecodeError>)
        requires
            i <= path@.len(),
            self.shaped(true),
        ensures
            r matches Ok(t) ==> {
                &&& t.shaped(false)
                &&& t.symbol_at(path@.skip(i as int)) == Some(symbol)
                &&& forall|q: Seq<bool>| #[trigger]
                    self.symbol_at(q) is Some ==> t.symbol_at(q) == self.symbol_at(q)
                &&& forall|q: Seq<bool>| #[trigger]
                    t.symbol_at(q) is Some ==> q == path@.skip(i as int) || self.symbol_at(q) is Some
            },
            r is Err ==> exists|q: Seq<bool>| #[trigger]
                self.symbol_at(q) is Some && prefix_related(q, path@.skip(i as int)),
        decreases path@.len() - i,
    {
        let ghost p = path@.skip(i as int);
        if i == path.len() {
            if self.character.is_some() || !(self.left.is_none() && self.right.is_none()) {
                proof {
                    assert(p.len() == 0);
                    if self.left.is_none() && self.right.is_none() {
                        assert(self.symbol_at(Seq::empty()) is Some);
                        assert(p =~= Seq::<bool>::empty());
                        assert(p.take(0) =~= Seq::<bool>::empty());
                        assert(is_prefix(Seq::empty(), p));
                    } else {
                        self.lemma_has_code();
                        let q = choose|q: Seq<bool>| #[trigger] self.symbol_at(q) is Some;
                        assert(p.len() == 0 && q.take(0) =~= p);
                        assert(is_prefix(p, q));
                    }
                }
                return Err(DecodeError::new("a code is a prefix of another"));
            }
            let t = HuffmanTree { character: Some(symbol), left: None, right: None };
            proof {
                assert(p.len() == 0);
                assert(p =~= Seq::<bool>::empty());
                assert forall|q: Seq<bool>| #[trigger]
                    self.symbol_at(q) is Some implies t.symbol_at(q) == self.symbol_at(q) by {
                    if q.len() > 0 {
                        assert(self.symbol_at(q) is None);
                    }
                }
                assert forall|q: Seq<bool>| #[trigger]
                    t.symbol_at(q) is Some implies q == p || self.symbol_at(q) is Some by {
                    if q.len() > 0 {
                        assert(t.symbol_at(q) is None);
                    } else {
                        assert(q =~= p);
                    }
                }
            }
            return Ok(t);
        }
        if self.character.is_some() {
            proof {
                assert(self.left.is_none() && self.right.is_none());
                assert(self.symbol_at(Seq::empty()) is Some);
                assert(p.take(0) =~= Seq::<bool>::empty());
                assert(is_prefix(Seq::empty(), p));
            }
            return Err(DecodeError::new("a code is a prefix of another"));
        }
        let ghost me = self;
        let HuffmanTree { character, left, right } = self;
        let bit = path[i];
        proof {
            assert(p[0] == bit);
            assert(p.drop_first() =~= path@.skip(i + 1));
        }
        if bit {
            let existed = right.is_some();
            let child = match right {
                Some(b) => *b,
                None => HuffmanTree::new(None),
            };
            let ghost old_child = child;
            proof {
                if existed {
                    lemma_shaped_root(old_child);
                }
                assert(old_child.shaped(true));
            }
            let c2 = match child.insert(path, i + 1, symbol) {
                Ok(c) => c,
                Err(e) => {
                    proof {
                        let q2 = choose|q: Seq<bool>| #[trigger]
                            old_child.symbol_at(q) is Some && prefix_related(q, path@.skip(i + 1));
                        if !existed {
                            assert(old_child.symbol_at(q2) is None) by {
                                if q2.len() == 0 {
                                } else {
                                }
                            }
                        }
                        let q = seq![true] + q2;
                        assert(q.drop_first() =~= q2);
                        assert(me.symbol_at(q) is Some);
                        lemma_prefix_related_cons(true, q2, path@.skip(i + 1));
                        assert(seq![true] + path@.skip(i + 1) =~= p);
                    }
                    return Err(e);
                },
            };
            let ghost gc2 = c2;
            let t = HuffmanTree { character, left, right: Some(Box::new(c2)) };
            proof {
                assert(p.len() > 0);
                assert forall|q: Seq<bool>| #[trigger]
                    me.symbol_at(q) is Some implies t.symbol_at(q) == me.symbol_at(q) by {
                    if q.len() > 0 && q[0] {
                        assert(old_child.symbol_at(q.drop_first()) is Some);
                    }
                }
                assert forall|q: Seq<bool>| #[trigger]
                    t.symbol_at(q) is Some implies q == p || me.symbol_at(q) is Some by {
                    if q.len() > 0 && q[0] {
                        if q.drop_first() == path@.skip(i + 1) {
                            assert(q =~= seq![true] + q.drop_first());
                            assert(p =~= seq![true] + p.drop_first());
                        } else {
                            assert(gc2.symbol_at(q.drop_first()) is Some);
                            assert(old_child.symbol_at(q.drop_first()) is Some);
                        }
                    } else if q.len() > 0 {
                        assert(t.symbol_at(q) == me.symbol_at(q));
                    } else {
                        assert(t.symbol_at(q) is None);
                    }
                }
            }
            Ok(t)
        } else {
            let existed = left.is_some();
            let child = match left {
                Some(b) => *b,
                None => HuffmanTree::new(None),
            };
            let ghost old_child = child;
            proof {
                if existed {
                    lemma_shaped_root(old_child);
                }
                assert(old_child.shaped(true));
            }
            let c2 = match child.insert(path, i + 1, symbol) {
                Ok(c) => c,
                Err(e) => {
                    proof {
                        let q2 = choose|q: Seq<bool>| #[trigger]
                            old_child.symbol_at(q) is Some && prefix_related(q, path@.skip(i + 1));
                        if !existed {
                            assert(old_child.symbol_at(q2) is None) by {
                                if q2.len() == 0 {
                                } else {
                                }
                            }
                        }
                        let q = seq![false] + q2;
                        assert(q.drop_first() =~= q2);
                        assert(me.symbol_at(q) is Some);
                        lemma_prefix_related_cons(false, q2, path@.skip(i + 1));
                        assert(seq![false] + path@.skip(i + 1) =~= p);
                    }
                    return Err(e);
                },
            };
            let ghost gc2 = c2;
            let t = HuffmanTree { character, left: Some(Box::new(c2)), right };
            proof {
                assert(p.len() > 0);
                assert forall|q: Seq<bool>| #[trigger]
                    me.symbol_at(q) is Some implies t.symbol_at(q) == me.symbol_at(q) by {
                    if q.len() > 0 && !q[0] {
                        assert(old_child.symbol_at(q.drop_first()) is Some);
                    }
                }
                assert forall|q: Seq<bool>| #[trigger]
                    t.symbol_at(q) is Some implies q == p || me.symbol_at(q) is Some by {
                    if q.len() > 0 && !q[0] {
                        if q.drop_first() == path@.skip(i + 1) {
                            assert(q =~= seq![false] + q.drop_first());
                            assert(p =~= seq![false] + p.drop_first());
                        } else {
                            assert(gc2.symbol_at(q.drop_first()) is Some);
                            assert(old_child.symbol_at(q.drop_first()) is Some);
                        }
                    } else if q.len() > 0 {
                        assert(t.symbol_at(q) == me.symbol_at(q));
                    } else {
                        assert(t.symbol_at(q) is None);
                    }
                }
            }
            Ok(t)
        }
    }

    /// A tree in which the code of every symbol of `codes` leads to that
    /// symbol. Fails exactly where one code is a prefix of another.
    pub fn build_from_codes(codes: &HuffmanCodes) -> (r: Result<Self, DecodeError>)
        requires
            codes.wf(),
            codes@.len() <= u16::MAX + 1,
        ensures
            r matches Ok(t) ==> forall|s: int|
                0 <= s < codes@.len() && (#[trigger] codes@[s]).0 > 0 ==> t.symbol_at(
                    codes.code_bits(s),
                ) == Some(s as u16),
            r matches Ok(t) ==> forall|q: Seq<bool>| #[trigger]
                t.symbol_at(q) is Some ==> exists|s: int|
                    0 <= s < codes@.len() && (#[trigger] codes@[s]).0 > 0 && q == codes.code_bits(s),
            r is Ok <==> codes_prefix_free(codes@),
    {
        let mut tree = HuffmanTree::new(None);
        let n = codes.len();
        let mut s: usize = 0;
        while s < n
            invariant
                s <= n == codes@.len() <= u16::MAX + 1,
                codes.wf(),
                tree.shaped(true),
                forall|t: int|
                    0 <= t < s && (#[trigger] codes@[t]).0 > 0 ==> tree.symbol_at(codes.code_bits(t))
                        == Some(t as u16),
                forall|q: Seq<bool>| #[trigger]
                    tree.symbol_at(q) is Some ==> exists|t: int|
                        0 <= t < s && (#[trigger] codes@[t]).0 > 0 && q == codes.code_bits(t),
            decreases n - s,
        {
            let (len, code) = codes.code(s);
            if len > 0 {
                proof {
                    assert(codes@[s as int].0 <= MAX_BITS);
                }
                let path = code_path(len, code);
                let ghost before = tree;
                proof {
                    assert(path@.skip(0) =~= path@);
                }
                tree = match tree.insert(&path, 0, s as u16) {
                    Ok(t) => t,
                    Err(e) => {
                        proof {
                            if codes_prefix_free(codes@) {
                                let q = choose|q: Seq<bool>| #[trigger]
                                    before.symbol_at(q) is Some && prefix_related(q, path@.skip(0));
                                let t = choose|t: int|
                                    0 <= t < s && (#[trigger] codes@[t]).0 > 0 && q == codes.code_bits(t);
                                assert(!is_prefix(codes.code_bits(t), codes.code_bits(s as int)));
                                assert(!is_prefix(codes.code_bits(s as int), codes.code_bits(t)));
                            }
                        }
                        return Err(e);
                    },
                };
                proof {
                    assert forall|t: int|
                        0 <= t < s + 1 && (#[trigger] codes@[t]).0 > 0 implies tree.symbol_at(
                        codes.code_bits(t),
                    ) == Some(t as u16) by {
                        if t < s {
                            assert(before.symbol_at(codes.code_bits(t)) is Some);
                        }
                    }
                    assert forall|q: Seq<bool>| #[trigger]
                        tree.symbol_at(q) is Some implies exists|t: int|
                        0 <= t < s + 1 && (#[trigger] codes@[t]).0 > 0 && q == codes.code_bits(t) by {
                        if q == path@ {
                            assert(codes@[s as int].0 > 0 && q == codes.code_bits(s as int));
                        } else {
                            assert(before.symbol_at(q) is Some);
                        }
                    }
                }
            }
            s = s + 1;
        }
        proof {
            assert forall|a: int, b: int|
                0 <= a < codes@.len() && 0 <= b < codes@.len() && a != b && codes@[a].0 > 0
                    && codes@[b].0 > 0 implies !is_prefix(
                #[trigger] msb_bits(codes@[a].1 as nat, codes@[a].0 as nat),
                #[trigger] msb_bits(codes@[b].1 as nat, codes@[b].0 as nat),
            ) by {
                let pa = codes.code_bits(a);
                let pb = codes.code_bits(b);
                assert(tree.symbol_at(pa) == Some(a as u16));
                assert(tree.symbol_at(pb) == Some(b as u16));
                if is_prefix(pa, pb) {
                    if pa.len() < pb.len() {
                        tree.lemma_leaf_no_extension(pa, pb);
                    } else {
                        assert(pb =~= pa);
                    }
                }
            }
        }
        Ok(tree)
    }

    /// Nothing is decoded below a leaf.
    proof fn lemma_leaf_no_extension(&self, p: Seq<bool>, q: Seq<bool>)
        requires
            self.symbol_at(p) is Some,
            p.len() < q.len(),
            q.take(p.len() as int) == p,
        ensures
            self.symbol_at(q) is None,
        decreases p.len(),
    {
        if p.len() > 0 {
            assert(q[0] == p[0]) by {
                assert(q.take(p.len() as int)[0] == q[0]);
            }
            let child = if p[0] {
                self.right
            } else {
                self.left
            };
            if let Some(c) = child {
                assert(q.drop_first().take(p.len() - 1) =~= p.drop_first());
                c.lemma_leaf_no_extension(p.drop_first(), q.drop_first());
            }
        }
    }

    /// The canonical code tree for code lengths `codelens` (RFC 1951,
    /// section 3.2.2): each symbol with a non-zero length is reached by its
    /// canonical code. Fails on lengths that admit no code.
    pub fn build_canonical_from_codelens(codelens: &[u32]) -> (r: Result<Self, DecodeError>)
        requires
            codelens@.len() <= u16::MAX + 1,
        ensures
            r is Ok <==> lengths_valid(codelens@, MAX_BITS as nat),
            r matches Ok(t) ==> {
                &&& forall|s: int|
                    0 <= s < codelens@.len() && #[trigger] codelens@[s] > 0 ==> t.symbol_at(
                        msb_bits(canonical_code(codelens@, s), codelens@[s] as nat),
                    ) == Some(s as u16)
                &&& forall|q: Seq<bool>|
                    #[trigger] t.symbol_at(q) is Some ==> (t.symbol_at(q)->Some_0 as int)
                        < codelens@.len() && codelens@[t.symbol_at(q)->Some_0 as int] > 0
            },
    {
        let codes = match HuffmanCodes::build_from_codelens(codelens) {
            Ok(c) => c,
            Err(e) => {
                return Err(e);
            },
        };
        proof {
            lemma_canon_table_prefix_free(codelens@);
        }
        let r = Self::build_from_codes(&codes);
        proof {
            if r is Ok {
                assert forall|s: int|
                    0 <= s < codelens@.len() && #[trigger] codelens@[s] > 0 implies r->Ok_0.symbol_at(
                    msb_bits(canonical_code(codelens@, s), codelens@[s] as nat),
                ) == Some(s as u16) by {
                    assert(codes@[s] == canon_table(codelens@)[s]);
                    assert(canonical_code(codelens@, s) < exp2(MAX_BITS as nat)) by {
                        lemma_canonical_code_fits(codelens@, s);
                        lemma_exp2_small();
                    }
                    lemma_exp2_small();
                    assert(codes@[s].1 as nat == canonical_code(codelens@, s));
                    assert(codes.code_bits(s) == msb_bits(canonical_code(codelens@, s), codelens@[s] as nat));
                    assert(codes@[s].0 > 0);
                }
                let t = r->Ok_0;
                assert forall|q: Seq<bool>| #[trigger] t.symbol_at(q) is Some implies (t.symbol_at(
                    q,
                )->Some_0 as int) < codelens@.len() && codelens@[t.symbol_at(q)->Some_0 as int] > 0 by {
                    let s = choose|s: int|
                        0 <= s < codes@.len() && (#[trigger] codes@[s]).0 > 0 && q == codes.code_bits(s);
                    assert(codes@[s] == canon_table(codelens@)[s]);
                    assert(t.symbol_at(codes.code_bits(s)) == Some(s as u16));
                }
            }
        }
        r
    }

    /// The length-limited canonical code tree for symbols with the given
    /// frequencies: every symbol that occurs is reached by its code, and no
    /// other symbol is in the tree.
    pub fn build_canonical_from_freq(frequencies: &[u32]) -> (r: Result<Self, DecodeError>)
        requires
            frequencies@.len() <= u16::MAX + 1,
            used_count(frequencies@) <= 32768,
        ensures
            r is Ok,
            r matches Ok(t) ==> forall|q: Seq<bool>|
                #[trigger] t.symbol_at(q) is Some ==> (t.symbol_at(q)->Some_0 as int)
                    < frequencies@.len() && frequencies@[t.symbol_at(q)->Some_0 as int] > 0,
            r matches Ok(t) ==> exists|lens: Seq<u32>|
                {
                    &&& lengths_cover(frequencies@, lens, MAX_BITS as nat)
                    &&& lengths_full(lens, MAX_BITS as nat)
                    &&& forall|s: int|
                        0 <= s < lens.len() && #[trigger] lens[s] > 0 ==> t.symbol_at(
                            msb_bits(canonical_code(lens, s), lens[s] as nat),
                        ) == Some(s as u16)
                },
    {
        proof {
            lemma_exp2_small();
        }
        let codelens = limited_codelens_from_freq(frequencies, MAX_BITS);
        let r = Self::build_canonical_from_codelens(&codelens);
        proof {
            if r is Ok {
                let t = r->Ok_0;
                assert forall|q: Seq<bool>| #[trigger] t.symbol_at(q) is Some implies (t.symbol_at(
                    q,
                )->Some_0 as int) < frequencies@.len() && frequencies@[t.symbol_at(q)->Some_0 as int]
                    > 0 by {
                    let x = t.symbol_at(q)->Some_0 as int;
                    assert(codelens@[x] > 0);
                    assert(frequencies@[x] == 0 || frequencies@[x] > 0);
                }
            }
        }
        r
    }

    /// Reads one symbol from `bits` at `pos`, following the tree; returns it
    /// with the position after its code.
    pub fn decode_char(&self, bits: &[bool], pos: usize) -> (r: Result<(u16, usize), DecodeError>)
        requires
            pos <= bits@.len(),
        ensures
            r matches Ok((s, p)) ==> pos <= p <= bits@.len() && self.symbol_at(
                bits@.subrange(pos as int, p as int),
            ) == Some(s),
            forall|k: int|
                0 <= k <= bits@.len() - pos && #[trigger] self.symbol_at(
                    bits@.subrange(pos as int, pos + k),
                ) is Some ==> (r matches Ok((s, p)) && p == pos + k && Some(s) == self.symbol_at(
                    bits@.subrange(pos as int, pos + k),
                )),
        decreases bits@.len() - pos,
    {
        if self.left.is_none() && self.right.is_none() {
            proof {
                assert(bits@.subrange(pos as int, pos as int).len() == 0);
                assert forall|k: int|
                    0 <= k <= bits@.len() - pos && #[trigger] self.symbol_at(
                        bits@.subrange(pos as int, pos + k),
                    ) is Some implies k == 0 by {
                    if k > 0 {
                        assert(bits@.subrange(pos as int, pos + k).len() > 0);
                    }
                }
            }
            return match self.character {
                Some(c) => Ok((c, pos)),
                None => Err(DecodeError::new("failed when decoding huffman: empty leaf node")),
            };
        }
        proof {
            assert forall|k: int|
                0 <= k <= bits@.len() - pos && #[trigger] self.symbol_at(
                    bits@.subrange(pos as int, pos + k),
                ) is Some implies k > 0 by {
                if k == 0 {
                    assert(bits@.subrange(pos as int, pos + k).len() == 0);
                }
            }
        }
        if pos >= bits.len() {
            return Err(DecodeError::new("failed when decoding huffman: stopped at non-leaf node"));
        }
        let child = if bits[pos] {
            &self.right
        } else {
            &self.left
        };
        match child {
            Some(c) => {
                let r = c.decode_char(bits, pos + 1);
                proof {
                    if let Ok((s, p)) = r {
                        assert(bits@.subrange(pos as int, p as int).drop_first() =~= bits@.subrange(
                            pos + 1,
                            p as int,
                        ));
                    }
                    assert forall|k: int|
                        0 <= k <= bits@.len() - pos && #[trigger] self.symbol_at(
                            bits@.subrange(pos as int, pos + k),
                        ) is Some implies (r matches Ok((s, p)) && p == pos + k && Some(s)
                        == self.symbol_at(bits@.subrange(pos as int, pos + k))) by {
                        assert(bits@.subrange(pos as int, pos + k).drop_first() =~= bits@.subrange(
                            pos + 1,
                            (pos + 1) + (k - 1),
                        ));
                        assert(c.symbol_at(bits@.subrange(pos + 1, (pos + 1) + (k - 1))) is Some);
                    }
                }
                r
            },
            None => {
                proof {
                    assert forall|k: int|
                        0 <= k <= bits@.len() - pos && #[trigger] self.symbol_at(
                            bits@.subrange(pos as int, pos + k),
                        ) is Some implies false by {
                        assert(bits@.subrange(pos as int, pos + k)[0] == bits@[pos as int]);
                    }
                }
                Err(DecodeError::new("failed when decoding huffman: stopped at non-leaf node"))
            },
        }
    }
}

/// One of `a` and `b` is a prefix of the other.
pub open spec fn prefix_related(a: Seq<bool>, b: Seq<bool>) -> bool {
    is_prefix(a, b) || is_prefix(b, a)
}

/// No symbol's code is a prefix of another symbol's code.
pub open spec fn codes_prefix_free(t: Seq<(u32, u32)>) -> bool {
    forall|s: int, u: int|
        0 <= s < t.len() && 0 <= u < t.len() && s != u && t[s].0 > 0 && t[u].0 > 0 ==> !is_prefix(
            #[trigger] msb_bits(t[s].1 as nat, t[s].0 as nat),
            #[trigger] msb_bits(t[u].1 as nat, t[u].0 as nat),
        )
}

/// The table of a canonical code with lengths that fit is prefix-free.
pub proof fn lemma_canon_table_prefix_free(lens: Seq<u32>)
    requires
        lengths_fit(lens, MAX_BITS as nat),
    ensures
        codes_prefix_free(canon_table(lens)),
{
    let t = canon_table(lens);
    lemma_exp2_small();
    assert forall|s: int, u: int|
        0 <= s < t.len() && 0 <= u < t.len() && s != u && t[s].0 > 0 && t[u].0 > 0 implies !is_prefix(
        #[trigger] msb_bits(t[s].1 as nat, t[s].0 as nat),
        #[trigger] msb_bits(t[u].1 as nat, t[u].0 as nat),
    ) by {
        lemma_canonical_code_fits(lens, s);
        lemma_canonical_code_fits(lens, u);
        lemma_canonical_prefix_free(lens, s, u);
    }
}

/// A tree whose leaves all hold symbols is also a valid root.
proof fn lemma_shaped_root(t: HuffmanTree)
    requires
        t.shaped(false),
    ensures
        t.shaped(true),
{
}

/// Putting the same bit in front keeps two paths prefix-related.
proof fn lemma_prefix_related_cons(b: bool, q: Seq<bool>, p: Seq<bool>)
    requires
        prefix_related(q, p),
    ensures
        prefix_related(seq![b] + q, seq![b] + p),
{
    if is_prefix(q, p) {
        assert((seq![b] + p).take(q.len() as int + 1) =~= seq![b] + p.take(q.len() as int));
    } else {
        assert((seq![b] + q).take(p.len() as int + 1) =~= seq![b] + q.take(p.len() as int));
    }
}

/// Under lengths that fit, every canonical code fits in its length.
pub proof fn lemma_canonical_code_fits(lens: Seq<u32>, s: int)
    requires
        lengths_fit(lens, MAX_BITS as nat),
        0 <= s < lens.len(),
        lens[s] > 0,
    ensures
        canonical_code(lens, s) < exp2(lens[s] as nat),
        canonical_code(lens, s) < exp2(MAX_BITS as nat),
{
    let l = lens[s] as nat;
    assert(first_code(lens, l) + count_len(lens, l) <= exp2(l));
    lemma_count_len_prefix_strict(lens, s);
    lemma_exp2_small();
    crate::symbol::lemma_exp2_monotone(l, 15);
}

/// Symbol `s` itself is not counted among the symbols before it.
proof fn lemma_count_len_prefix_strict(lens: Seq<u32>, s: int)
    requires
        0 <= s < lens.len(),
    ensures
        count_len(lens.take(s), lens[s] as nat) < count_len(lens, lens[s] as nat),
{
    lemma_count_len_prefix_bound(lens, s + 1, lens[s] as nat);
    assert(lens.take(s + 1).drop_last() =~= lens.take(s));
}


/// Σ `2^(15 - length)` over the symbols that have a code: the Kraft sum
/// scaled by `2^15`.
pub open spec fn kraft_sum(lens: Seq<u32>) -> nat
    decreases lens.len(),
{
    if lens.len() == 0 {
        0
    } else {
        kraft_sum(lens.drop_last()) + (if lens.last() > 0 && lens.last() <= MAX_BITS {
            exp2((MAX_BITS - lens.last()) as nat)
        } else {
            0
        })
    }
}

/// Σ over lengths `1..=l` of the symbols of that length times `2^(15 - length)`.
pub open spec fn level_sum(lens: Seq<u32>, l: nat) -> nat
    decreases l,
{
    if l == 0 {
        0
    } else {
        level_sum(lens, (l - 1) as nat) + count_len(lens, l) * exp2((MAX_BITS - l) as nat)
    }
}

/// `a` is a prefix of `b`.
pub open spec fn is_prefix(a: Seq<bool>, b: Seq<bool>) -> bool {
    a.len() <= b.len() && b.take(a.len() as int) == a
}

proof fn lemma_level_sum_drop_last(lens: Seq<u32>, l: nat)
    requires
        lens.len() > 0,
        l <= MAX_BITS,
    ensures
        level_sum(lens, l) == level_sum(lens.drop_last(), l) + (if 1 <= lens.last() <= l {
            exp2((MAX_BITS - lens.last()) as nat)
        } else {
            0
        }),
    decreases l,
{
    if l > 0 {
        lemma_level_sum_drop_last(lens, (l - 1) as nat);
        assert(count_len(lens, l) == count_len(lens.drop_last(), l) + (if lens.last() == l {
            1nat
        } else {
            0
        }));
        let e = exp2((MAX_BITS - l) as nat);
        assert(count_len(lens, l) * e == count_len(lens.drop_last(), l) * e + (if lens.last() == l {
            e
        } else {
            0
        })) by (nonlinear_arith)
            requires
                count_len(lens, l) == count_len(lens.drop_last(), l) + (if lens.last() == l {
                    1nat
                } else {
                    0
                }),
        ;
    }
}

/// The Kraft sum counted symbol by symbol equals it counted length by length.
proof fn lemma_kraft_levels(lens: Seq<u32>)
    ensures
        kraft_sum(lens) == level_sum(lens, MAX_BITS as nat),
    decreases lens.len(),
{
    if lens.len() > 0 {
        lemma_kraft_levels(lens.drop_last());
        lemma_level_sum_drop_last(lens, MAX_BITS as nat);
    } else {
        lemma_level_sum_empty(lens, MAX_BITS as nat);
    }
}

proof fn lemma_level_sum_empty(lens: Seq<u32>, l: nat)
    requires
        lens.len() == 0,
    ensures
        level_sum(lens, l) == 0,
    decreases l,
{
    if l > 0 {
        lemma_level_sum_empty(lens, (l - 1) as nat);
        assert(count_len(lens, l) == 0);
        assert(count_len(lens, l) * exp2((MAX_BITS - l) as nat) == 0);
    }
}

/// The first free code after length `l`, scaled to 15 bits, is the level sum.
proof fn lemma_first_code_levels(lens: Seq<u32>, l: nat)
    requires
        1 <= l <= MAX_BITS,
    ensures
        (first_code(lens, l) + count_len(lens, l)) * exp2((MAX_BITS - l) as nat) == level_sum(lens, l),
    decreases l,
{
    lemma_exp2_small();
    if l == 1 {
        assert(level_sum(lens, 0) == 0);
    } else {
        lemma_first_code_levels(lens, (l - 1) as nat);
        let e = exp2((MAX_BITS - l) as nat);
        assert(exp2((MAX_BITS - (l - 1)) as nat) == 2 * e) by {
            assert((MAX_BITS - (l - 1)) as nat == ((MAX_BITS - l) as nat + 1) as nat);
        }
        let f = first_code(lens, (l - 1) as nat) + count_len(lens, (l - 1) as nat);
        assert(first_code(lens, l) == f * 2);
        assert((f * 2 + count_len(lens, l)) * e == f * (2 * e) + count_len(lens, l) * e)
            by (nonlinear_arith);
    }
}

/// Kraft's inequality: lengths that fit have a Kraft sum of at most one.
pub proof fn lemma_canonical_kraft(lens: Seq<u32>)
    requires
        lengths_fit(lens, MAX_BITS as nat),
    ensures
        kraft_sum(lens) <= exp2(MAX_BITS as nat),
        code_space(lens, MAX_BITS as nat) == exp2(MAX_BITS as nat) ==> kraft_sum(lens) == exp2(
            MAX_BITS as nat,
        ),
{
    lemma_kraft_levels(lens);
    lemma_first_code_levels(lens, MAX_BITS as nat);
    lemma_exp2_small();
    assert(first_code(lens, 15) + count_len(lens, 15) <= exp2(15));
}

/// The first `k` bits of the `n`-bit code `v` are the `k`-bit code of its top part.
pub proof fn lemma_msb_take(v: nat, n: nat, k: nat)
    requires
        k <= n,
    ensures
        msb_bits(v, n).take(k as int) == msb_bits(v / exp2((n - k) as nat), k),
    decreases n - k,
{
    crate::bits::lemma_msb_bits_len(v, n);
    if k == n {
        assert(exp2(0) == 1);
        assert(v / 1 == v) by (nonlinear_arith);
        assert(msb_bits(v, n).take(k as int) =~= msb_bits(v, n));
    } else {
        crate::bits::lemma_msb_bits_len(v / 2, (n - 1) as nat);
        lemma_msb_take(v / 2, (n - 1) as nat, k);
        assert(msb_bits(v, n).take(k as int) =~= msb_bits(v / 2, (n - 1) as nat).take(k as int));
        lemma_exp2_pos((n - 1 - k) as nat);
        vstd::arithmetic::div_mod::lemma_div_denominator(v as int, 2, exp2((n - 1 - k) as nat) as int);
        assert(exp2((n - k) as nat) == 2 * exp2((n - 1 - k) as nat));
    }
}

/// Codes of one length below `2^n` with equal bits are equal.
pub proof fn lemma_msb_injective(a: nat, b: nat, n: nat)
    requires
        a < exp2(n),
        b < exp2(n),
        msb_bits(a, n) == msb_bits(b, n),
    ensures
        a == b,
    decreases n,
{
    if n == 0 {
    } else {
        crate::bits::lemma_msb_bits_len(a / 2, (n - 1) as nat);
        crate::bits::lemma_msb_bits_len(b / 2, (n - 1) as nat);
        assert(msb_bits(a, n).last() == (a % 2 == 1));
        assert(msb_bits(a, n).drop_last() =~= msb_bits(a / 2, (n - 1) as nat));
        assert(msb_bits(b, n).drop_last() =~= msb_bits(b / 2, (n - 1) as nat));
        lemma_msb_injective(a / 2, b / 2, (n - 1) as nat);
    }
}

/// Codes of a longer length start above every code of a shorter one.
proof fn lemma_first_code_grows(lens: Seq<u32>, a: nat, b: nat)
    requires
        1 <= a < b,
    ensures
        first_code(lens, b) >= (first_code(lens, a) + count_len(lens, a)) * exp2((b - a - 1) as nat)
            * 2,
    decreases b - a,
{
    let fa = first_code(lens, a) + count_len(lens, a);
    if b == a + 1 {
        assert(exp2(0) == 1);
        assert(first_code(lens, b) == fa * 2);
        assert(exp2((b - a - 1) as nat) == 1);
        assert(fa * exp2((b - a - 1) as nat) * 2 == fa * 2) by (nonlinear_arith)
            requires
                exp2((b - a - 1) as nat) == 1,
        ;
    } else {
        lemma_first_code_grows(lens, a, (b - 1) as nat);
        let e = exp2((b - a - 2) as nat);
        assert(exp2((b - a - 1) as nat) == 2 * e);
        let fb1 = first_code(lens, (b - 1) as nat);
        assert(first_code(lens, b) == (fb1 + count_len(lens, (b - 1) as nat)) * 2);
        assert(fb1 >= fa * e * 2);
        assert(first_code(lens, b) >= fa * (2 * e) * 2) by (nonlinear_arith)
            requires
                first_code(lens, b) == (fb1 + count_len(lens, (b - 1) as nat)) * 2,
                fb1 >= fa * e * 2,
        ;
    }
}

proof fn lemma_count_take_mono(lens: Seq<u32>, i: int, j: int, l: nat)
    requires
        0 <= i <= j <= lens.len(),
    ensures
        count_len(lens.take(i), l) <= count_len(lens.take(j), l),
    decreases j - i,
{
    if i < j {
        lemma_count_take_mono(lens, i, j - 1, l);
        assert(lens.take(j).drop_last() =~= lens.take(j - 1));
    }
}

/// Canonical codes are prefix-free: no symbol's code begins another's.
pub proof fn lemma_canonical_prefix_free(lens: Seq<u32>, s: int, t: int)
    requires
        lengths_fit(lens, MAX_BITS as nat),
        0 <= s < lens.len(),
        0 <= t < lens.len(),
        s != t,
        lens[s] > 0,
        lens[t] > 0,
    ensures
        !is_prefix(
            msb_bits(canonical_code(lens, s), lens[s] as nat),
            msb_bits(canonical_code(lens, t), lens[t] as nat),
        ),
{
    let ls = lens[s] as nat;
    let lt = lens[t] as nat;
    let cs = canonical_code(lens, s);
    let ct = canonical_code(lens, t);
    crate::bits::lemma_msb_bits_len(cs, ls);
    crate::bits::lemma_msb_bits_len(ct, lt);
    if ls <= lt && is_prefix(msb_bits(cs, ls), msb_bits(ct, lt)) {
        lemma_canonical_code_fits(lens, s);
        lemma_canonical_code_fits(lens, t);
        lemma_msb_take(ct, lt, ls);
        let p = exp2((lt - ls) as nat);
        lemma_exp2_pos((lt - ls) as nat);
        let top = ct / p;
        assert(top < exp2(ls)) by {
            assert(exp2(lt) == exp2(ls) * p) by {
                lemma_exp2_add(ls, (lt - ls) as nat);
            }
            vstd::arithmetic::div_mod::lemma_multiply_divide_lt(ct as int, p as int, exp2(ls) as int);
        }
        lemma_msb_injective(top, cs, ls);
        lemma_count_len_prefix_strict(lens, s);
        lemma_count_len_prefix_strict(lens, t);
        if ls == lt {
            assert(p == 1);
            assert(ct / 1 == ct) by (nonlinear_arith);
            assert(top == ct);
            if s < t {
                lemma_count_take_mono(lens, s + 1, t, ls);
                assert(lens.take(s + 1).drop_last() =~= lens.take(s));
            } else {
                lemma_count_take_mono(lens, t + 1, s, ls);
                assert(lens.take(t + 1).drop_last() =~= lens.take(t));
            }
        } else {
            lemma_first_code_grows(lens, ls, lt);
            let fa = first_code(lens, ls) + count_len(lens, ls);
            assert(exp2((lt - ls) as nat) == exp2((lt - ls - 1) as nat) * 2);
            assert(ct >= fa * p) by (nonlinear_arith)
                requires
                    ct >= first_code(lens, lt),
                    first_code(lens, lt) >= fa * exp2((lt - ls - 1) as nat) * 2,
                    p == exp2((lt - ls - 1) as nat) * 2,
            ;
            assert(fa >= cs + 1);
            assert(top >= cs + 1) by {
                vstd::arithmetic::div_mod::lemma_div_is_ordered((fa * p) as int, ct as int, p as int);
                vstd::arithmetic::div_mod::lemma_div_by_multiple(fa as int, p as int);
            }
        }
    }
}

/// `2^(a + b) == 2^a * 2^b`.
pub proof fn lemma_exp2_add(a: nat, b: nat)
    ensures
        exp2(a + b) == exp2(a) * exp2(b),
    decreases b,
{
    if b > 0 {
        lemma_exp2_add(a, (b - 1) as nat);
        assert(exp2(a + b) == 2 * exp2((a + b - 1) as nat));
        assert(exp2(a) * exp2(b) == exp2(a) * (2 * exp2((b - 1) as nat)));
        assert(exp2(a) * (2 * exp2((b - 1) as nat)) == 2 * (exp2(a) * exp2((b - 1) as nat)))
            by (nonlinear_arith);
    } else {
        assert(exp2(0) == 1);
        assert(a + b == a);
    }
}

} // verus!
