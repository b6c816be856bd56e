//! The LZ77 stage: a sliding window over the input, back-references found in
//! it, and blocks of symbols handed to the Huffman stage.

use vstd::prelude::*;
use crate::circular_buf::CircularBuf;
use crate::symbol::{
    Symbol, Lz77Status, WINDOW_SIZE, LOOKAHEAD_SIZE, replay, stream_valid, symbol_valid_after,
    apply_symbol, lemma_copy_back_periodic, lemma_replay_append, lemma_stream_valid_append,
};

verus! {

/// Slots of the 3-byte-prefix hash table.
pub const HASH_SIZE: usize = 32768;

/// The first `len` bytes of `lookahead` stand in `window` from index `i` on,
/// without running past the end of the window.
pub open spec fn matches_at(window: Seq<u8>, lookahead: Seq<u8>, i: int, len: int) -> bool {
    &&& 0 <= i
    &&& 0 <= len
    &&& i + len <= window.len()
    &&& len <= lookahead.len()
    &&& forall|j: int| 0 <= j < len ==> #[trigger] window[i + j] == lookahead[j]
}

/// `r` is the longest prefix of `lookahead` (at least 3 and at most 258
/// bytes) that occurs in `window`, as `(length, distance back from the
/// window's end)`, the nearest among equally long ones; `None` when no
/// 3-byte prefix occurs.
pub open spec fn is_longest_match(window: Seq<u8>, lookahead: Seq<u8>, r: Option<(usize, usize)>) -> bool {
    match r {
        None => forall|i: int| !#[trigger] matches_at(window, lookahead, i, 3),
        Some((len, dist)) => {
            &&& 3 <= len <= LOOKAHEAD_SIZE
            &&& 1 <= dist <= window.len()
            &&& len <= dist
            &&& matches_at(window, lookahead, window.len() - dist, len as int)
            &&& forall|i: int, l: int|
                #![trigger matches_at(window, lookahead, i, l)]
                matches_at(window, lookahead, i, l) && l <= LOOKAHEAD_SIZE ==> l <= len
            &&& forall|i: int|
                window.len() - dist < i ==> !#[trigger] matches_at(
                    window,
                    lookahead,
                    i,
                    len as int,
                )
        },
    }
}

/// Length of the common prefix of `lookahead` and the window from index `i`,
/// capped at `limit`.
fn match_length(window: &CircularBuf<u8>, lookahead: &CircularBuf<u8>, i: usize, limit: usize) -> (r:
    usize)
    requires
        window.wf(),
        lookahead.wf(),
        i + limit <= window@.len(),
        limit <= lookahead@.len(),
    ensures
        r <= limit,
        matches_at(window@, lookahead@, i as int, r as int),
        r < limit ==> window@[i + r] != lookahead@[r as int],
{
    proof {
        window.lemma_len_bound();
    }
    let mut n: usize = 0;
    while n < limit
        invariant
            n <= limit,
            i + limit <= window@.len(),
            limit <= lookahead@.len(),
            window@.len() <= usize::MAX,
            window.wf(),
            lookahead.wf(),
            matches_at(window@, lookahead@, i as int, n as int),
        decreases limit - n,
    {
        if window.index(i + n) != lookahead.index(n) {
            return n;
        }
        n = n + 1;
    }
    n
}

/// The longest prefix of `lookahead` (at least 3 and at most 258 bytes) that
/// occurs in `window`, as `(length, distance back from the window's end)`;
/// among equally long ones, the nearest.
pub fn longest_match(window: &CircularBuf<u8>, lookahead: &CircularBuf<u8>) -> (r: Option<
    (usize, usize),
>)
    requires
        window.wf(),
        lookahead.wf(),
    ensures
        is_longest_match(window@, lookahead@, r),
{
    let wlen = window.len();
    let llen = lookahead.len();
    let cap = if llen < LOOKAHEAD_SIZE { llen } else { LOOKAHEAD_SIZE };
    let mut best_len: usize = 0;
    let mut best_dist: usize = 0;
    let mut k: usize = wlen;
    while k > 0 && !(best_len == cap && cap >= 3)
        invariant
            window.wf(),
            lookahead.wf(),
            wlen == window@.len(),
            llen == lookahead@.len(),
            cap == (if llen < LOOKAHEAD_SIZE { llen } else { LOOKAHEAD_SIZE }),
            k <= wlen,
            best_len <= cap,
            best_len == 0 || (3 <= best_len <= cap && 1 <= best_dist <= wlen - k && best_len
                <= best_dist && matches_at(window@, lookahead@, wlen - best_dist, best_len as int)),
            forall|i: int, l: int|
                #![trigger matches_at(window@, lookahead@, i, l)]
                k <= i && matches_at(window@, lookahead@, i, l) && l <= LOOKAHEAD_SIZE ==> l
                    <= best_len || l < 3,
            forall|i: int|
                wlen - best_dist < i && best_len > 0 ==> !#[trigger] matches_at(
                    window@,
                    lookahead@,
                    i,
                    best_len as int,
                ),
        decreases k,
    {
        k = k - 1;
        let room = wlen - k;
        let limit = if cap < room { cap } else { room };
        let l = match_length(window, lookahead, k, limit);
        proof {
            assert forall|l2: int|
                matches_at(window@, lookahead@, k as int, l2) && l2 <= LOOKAHEAD_SIZE implies l2
                <= l by {
                if l2 > l {
                    if l < limit {
                        assert(window@[k + l] == lookahead@[l as int]);
                    } else {
                        assert(l2 <= limit);
                    }
                }
            }
        }
        if l >= 3 && l > best_len {
            best_len = l;
            best_dist = wlen - k;
        }
    }
    proof {
        assert forall|i: int, l: int|
            #![trigger matches_at(window@, lookahead@, i, l)]
            matches_at(window@, lookahead@, i, l) && l <= LOOKAHEAD_SIZE implies l <= best_len
            || l < 3 by {
            if i < k {
                assert(l <= cap);
            }
        }
        assert forall|i: int| best_len < 3 implies !#[trigger] matches_at(window@, lookahead@, i, 3) by {
            if matches_at(window@, lookahead@, i, 3) {
                assert(matches_at(window@, lookahead@, i, 3) && 3 <= LOOKAHEAD_SIZE);
            }
        }
    }
    if best_len >= 3 {
        Some((best_len, best_dist))
    } else {
        None
    }
}

/// For each hash of a 3-byte prefix, the last input position where such a
/// prefix began, and for each position in the window the one before it with
/// the same hash. Entries are positions plus one; zero marks none.
pub struct MatchIndex {
    head: Vec<usize>,
    prev: Vec<usize>,
}

/// The hash slot of the 3-byte prefix `a b c`.
pub open spec fn hash3(a: u8, b: u8, c: u8) -> int {
    (a as int * 1024 + b as int * 32 + c as int) % (HASH_SIZE as int)
}

/// The hash of the 3-byte prefix at input position `q`.
pub open spec fn hash_at(input: Seq<u8>, q: int) -> int {
    hash3(input[q], input[q + 1], input[q + 2])
}

/// How many input positions are recorded once `cur` bytes are in the
/// window: those whose whole prefix is.
pub open spec fn recorded(cur: int) -> int {
    if cur >= 3 {
        cur - 2
    } else {
        0
    }
}

/// `v` names the last position below `top` whose prefix hashes to `h`
/// (plus one), or is zero when there is none.
pub open spec fn last_before(input: Seq<u8>, h: int, v: int, top: int) -> bool {
    if v == 0 {
        forall|q: int| 0 <= q < top ==> #[trigger] hash_at(input, q) != h
    } else {
        &&& 0 <= v - 1 < top
        &&& hash_at(input, v - 1) == h
        &&& forall|q: int| v - 1 < q < top ==> #[trigger] hash_at(input, q) != h
    }
}

fn hash_of(a: u8, b: u8, c: u8) -> (r: usize)
    ensures
        r == hash3(a, b, c),
        r < HASH_SIZE,
{
    ((a as usize) * 1024 + (b as usize) * 32 + (c as usize)) % HASH_SIZE
}

impl MatchIndex {
    /// The positions `0..n` of `input` are recorded: `head` gives the last
    /// one of each hash, and `prev` links each of the last `WINDOW_SIZE`
    /// positions to the one before it with the same hash.
    pub closed spec fn indexes(&self, input: Seq<u8>, n: int) -> bool {
        &&& self.head.len() == HASH_SIZE
        &&& self.prev.len() == WINDOW_SIZE
        &&& 0 <= n
        &&& (n == 0 || n + 2 <= input.len())
        &&& forall|h: int|
            0 <= h < HASH_SIZE ==> last_before(input, h, #[trigger] self.head@[h] as int, n)
        &&& forall|p: int|
            n - WINDOW_SIZE <= p < n && 0 <= p ==> last_before(
                input,
                hash_at(input, p),
                #[trigger] self.prev@[p % (WINDOW_SIZE as int)] as int,
                p,
            )
    }

    pub fn new() -> (r: Self)
        ensures
            forall|input: Seq<u8>| r.indexes(input, 0),
    {
        let mut head: Vec<usize> = Vec::new();
        let mut k: usize = 0;
        while k < HASH_SIZE
            invariant
                k <= HASH_SIZE,
                head.len() == k,
                forall|h: int| 0 <= h < k ==> head@[h] == 0,
            decreases HASH_SIZE - k,
        {
            head.push(0);
            k = k + 1;
        }
        let mut prev: Vec<usize> = Vec::new();
        let mut k: usize = 0;
        while k < WINDOW_SIZE
            invariant
                k <= WINDOW_SIZE,
                prev.len() == k,
            decreases WINDOW_SIZE - k,
        {
            prev.push(0);
            k = k + 1;
        }
        MatchIndex { head, prev }
    }

    /// Records position `at`, whose prefix hashes to `h`.
    fn insert(&mut self, at: usize, h: usize, Ghost(input): Ghost<Seq<u8>>)
        requires
            old(self).indexes(input, at as int),
            at + 3 <= input.len(),
            at < usize::MAX,
            h == hash_at(input, at as int),
        ensures
            final(self).indexes(input, at + 1),
    {
        let last = self.head[h];
        let ghost old_prev = self.prev@;
        let ghost old_head = self.head@;
        self.prev.set(at % WINDOW_SIZE, last);
        self.head.set(h, at + 1);
        proof {
            let n = at as int;
            assert forall|h2: int| 0 <= h2 < HASH_SIZE implies last_before(
                input,
                h2,
                #[trigger] self.head@[h2] as int,
                n + 1,
            ) by {
                if h2 != h {
                    assert(last_before(input, h2, old_head[h2] as int, n));
                    assert forall|q: int| 0 <= q < n + 1 && (old_head[h2] == 0 || old_head[h2] - 1 < q)
                        implies #[trigger] hash_at(input, q) != h2 by {
                        if q == n {
                        }
                    }
                }
            }
            assert forall|p: int|
                n + 1 - WINDOW_SIZE <= p < n + 1 && 0 <= p implies last_before(
                input,
                hash_at(input, p),
                #[trigger] self.prev@[p % (WINDOW_SIZE as int)] as int,
                p,
            ) by {
                if p < n {
                    assert(p % 32768 != n % 32768) by (nonlinear_arith)
                        requires
                            0 <= p < n,
                            n - p < 32768,
                    ;
                    assert(self.prev@[p % (WINDOW_SIZE as int)] == old_prev[p % (WINDOW_SIZE as int)]);
                } else {
                    assert(p == n);
                    assert(last_before(input, h as int, old_head[h as int] as int, n));
                }
            }
        }
    }

    /// The longest match of a prefix of `lookahead` in `window` (see
    /// `is_longest_match`), where the window holds the `cur` bytes of
    /// `input` read so far (up to a full window) and their positions are
    /// recorded. Every recorded position with the lookahead's hash in the
    /// window is tried, nearest first.
    fn find_match(
        &self,
        window: &CircularBuf<u8>,
        lookahead: &CircularBuf<u8>,
        cur: usize,
        Ghost(input): Ghost<Seq<u8>>,
    ) -> (r: Option<(usize, usize)>)
        requires
            self.indexes(input, recorded(cur as int)),
            window.wf(),
            lookahead.wf(),
            cur <= input.len(),
            window@.len() == (if cur < WINDOW_SIZE { cur as int } else { WINDOW_SIZE as int }),
            window@ == input.subrange(cur - window@.len(), cur as int),
        ensures
            is_longest_match(window@, lookahead@, r),
    {
        let wlen = window.len();
        let llen = lookahead.len();
        if llen < 3 {
            return None;
        }
        let cap = if llen < LOOKAHEAD_SIZE { llen } else { LOOKAHEAD_SIZE };
        let base = cur - wlen;
        let h = hash_of(lookahead.index(0), lookahead.index(1), lookahead.index(2));
        let ghost n = recorded(cur as int);
        let ghost w = window@;
        let ghost la = lookahead@;
        proof {
            // A 3-byte match lies at a recorded position with the lookahead's hash.
            assert forall|i: int| #[trigger] matches_at(w, la, i, 3) implies base + i < n
                && hash_at(input, base + i) == h by {
                assert(w[i + 0] == la[0] && w[i + 1] == la[1] && w[i + 2] == la[2]);
                assert(input[base + i] == w[i]);
                assert(input[base + i + 1] == w[i + 1]);
                assert(input[base + i + 2] == w[i + 2]);
            }
            assert(last_before(input, h as int, self.head@[h as int] as int, n));
        }
        let mut cand = self.head[h];
        let mut best_len: usize = 0;
        let mut best_dist: usize = 0;
        proof {
            assert forall|i: int, l: int|
                #![trigger matches_at(w, la, i, l)]
                (cand == 0 || base + i >= cand) && matches_at(w, la, i, l) && l <= LOOKAHEAD_SIZE
                    implies l <= best_len || l < 3 by {
                if l >= 3 {
                    assert(matches_at(w, la, i, 3));
                }
            }
        }
        while cand != 0 && cand > base && best_len < cap
            invariant
                self.indexes(input, n),
                window.wf(),
                lookahead.wf(),
                w == window@,
                la == lookahead@,
                wlen == w.len(),
                llen == la.len(),
                llen >= 3,
                cap == (if llen < LOOKAHEAD_SIZE { llen } else { LOOKAHEAD_SIZE }),
                base + wlen == cur,
                n == recorded(cur as int),
                cur <= input.len(),
                wlen == (if cur < WINDOW_SIZE { cur as int } else { WINDOW_SIZE as int }),
                w == input.subrange(cur - wlen, cur as int),
                forall|i: int| #[trigger] matches_at(w, la, i, 3) ==> base + i < n && hash_at(input, base + i) == h,
                cand == 0 || (cand - 1 < n && hash_at(input, cand - 1) == h),
                cand == 0 || forall|q: int| cand - 1 < q < n ==> #[trigger] hash_at(input, q) != h || q >= base,
                best_len <= cap,
                best_len == 0 || (3 <= best_len <= cap && 1 <= best_dist <= wlen && best_len
                    <= best_dist && matches_at(w, la, wlen - best_dist, best_len as int) && (cand
                    == 0 || cand <= base + wlen - best_dist)),
                forall|i: int, l: int|
                    #![trigger matches_at(w, la, i, l)]
                    (cand == 0 || base + i >= cand) && matches_at(w, la, i, l) && l
                        <= LOOKAHEAD_SIZE ==> l <= best_len || l < 3,
                forall|i: int|
                    wlen - best_dist < i && best_len > 0 ==> !#[trigger] matches_at(
                        w,
                        la,
                        i,
                        best_len as int,
                    ),
            decreases cand,
        {
            let q = cand - 1;
            let wi = q - base;
            let room = wlen - wi;
            let limit = if cap < room { cap } else { room };
            let l = match_length(window, lookahead, wi, limit);
            proof {
                assert forall|l2: int| matches_at(w, la, wi as int, l2) && l2 <= LOOKAHEAD_SIZE
                    implies l2 <= l by {
                    if l2 > l {
                        if l < limit {
                            assert(w[wi + l] == la[l as int]);
                        } else {
                            assert(l2 <= limit);
                        }
                    }
                }
            }
            let ghost old_best = best_len;
            if l >= 3 && l > best_len {
                best_len = l;
                best_dist = wlen - wi;
            }
            let next = self.prev[q % WINDOW_SIZE];
            proof {
                assert(q - WINDOW_SIZE < n - WINDOW_SIZE + 0 || n - WINDOW_SIZE <= q);
                assert(n - WINDOW_SIZE <= q);
                assert(last_before(input, hash_at(input, q as int), next as int, q as int));
                assert forall|i: int, l2: int|
                    #![trigger matches_at(w, la, i, l2)]
                    (next == 0 || base + i >= next) && matches_at(w, la, i, l2) && l2
                        <= LOOKAHEAD_SIZE implies l2 <= best_len || l2 < 3 by {
                    if l2 >= 3 && base + i < cand {
                        assert(matches_at(w, la, i, 3));
                        if base + i < q {
                            assert(hash_at(input, base + i) != h);
                        }
                    }
                }
                assert forall|i: int|
                    wlen - best_dist < i && best_len > 0 implies !#[trigger] matches_at(
                    w,
                    la,
                    i,
                    best_len as int,
                ) by {
                    if best_len != old_best && matches_at(w, la, i, best_len as int) {
                        assert(base + i >= cand);
                    }
                }
                if next != 0 {
                    assert forall|q2: int| next - 1 < q2 < n implies #[trigger] hash_at(input, q2)
                        != h || q2 >= base by {
                        if q2 < q {
                        } else if q2 > q {
                        }
                    }
                }
            }
            cand = next;
        }
        proof {
            assert forall|i: int, l: int|
                #![trigger matches_at(w, la, i, l)]
                matches_at(w, la, i, l) && l <= LOOKAHEAD_SIZE implies l <= best_len || l < 3 by {
                if l >= 3 {
                    assert(matches_at(w, la, i, 3));
                    if best_len < cap && cand != 0 && base + i < cand {
                        assert(cand <= base);
                    }
                    if best_len >= cap {
                        assert(l <= cap);
                    }
                }
            }
            assert forall|i: int| best_len < 3 implies !#[trigger] matches_at(w, la, i, 3) by {
                if matches_at(w, la, i, 3) {
                    assert(matches_at(w, la, i, 3) && 3 <= LOOKAHEAD_SIZE);
                }
            }
        }
        if best_len >= 3 {
            Some((best_len, best_dist))
        } else {
            None
        }
    }
}

/// How the encoder's buffers stand against the input: everything before
/// `pos - lookahead.len()` has been encoded, the window holds its last
/// bytes (up to a full window), and the lookahead the bytes read after it.
pub open spec fn lz77_state(input: Seq<u8>, pos: int, window: Seq<u8>, lookahead: Seq<u8>) -> bool {
    let consumed = pos - lookahead.len();
    &&& 0 <= consumed <= pos <= input.len()
    &&& window.len() == (if consumed < WINDOW_SIZE { consumed } else { WINDOW_SIZE as int })
    &&& window == input.subrange(consumed - window.len(), consumed)
    &&& lookahead == input.subrange(consumed, pos)
}

/// The window the encoder matches against once `c` bytes are encoded.
pub open spec fn window_at(input: Seq<u8>, c: int) -> Seq<u8> {
    input.subrange(c - (if c < WINDOW_SIZE { c } else { WINDOW_SIZE as int }), c)
}

/// The lookahead the encoder matches from once `c` bytes are encoded.
pub open spec fn lookahead_at(input: Seq<u8>, c: int) -> Seq<u8> {
    input.subrange(
        c,
        if c + LOOKAHEAD_SIZE < input.len() { c + LOOKAHEAD_SIZE } else { input.len() as int },
    )
}

/// `s` is the greedy choice at input position `c`: the longest match in
/// the window (nearest on ties), or the next byte where no 3-byte match is.
pub open spec fn greedy_choice(input: Seq<u8>, c: int, s: Symbol) -> bool {
    let w = window_at(input, c);
    let la = lookahead_at(input, c);
    match s {
        Symbol::Literal(b) => is_longest_match(w, la, None) && b == input[c],
        Symbol::Pointer { length, distance } => is_longest_match(
            w,
            la,
            Some(((length + 3) as usize, distance as usize)),
        ),
    }
}

/// Every symbol of `syms` is the greedy choice where it starts, the stream
/// starting after the first `c0` bytes.
#[verifier::opaque]
pub open spec fn greedy_stream(input: Seq<u8>, c0: int, syms: Seq<Symbol>) -> bool {
    forall|k: int|
        0 <= k < syms.len() ==> greedy_choice(
            input,
            replay(input.take(c0), syms.take(k)).len() as int,
            #[trigger] syms[k],
        )
}

/// The symbols that a status carries.
pub open spec fn status_symbols(s: Lz77Status) -> Seq<Symbol> {
    match s {
        Lz77Status::Normal(v) => v@,
        Lz77Status::LastBlock(v) => v@,
    }
}

/// The buffers the encoder works with have their fixed capacities.
pub open spec fn buffers_ready(window: CircularBuf<u8>, lookahead: CircularBuf<u8>) -> bool {
    &&& window.wf()
    &&& lookahead.wf()
    &&& window.cap() == WINDOW_SIZE
    &&& lookahead.cap() == LOOKAHEAD_SIZE
}

/// Moves the front byte of the lookahead to the window and records the
/// prefix that thereby became complete.
fn shift_one(
    input: &[u8],
    pos: usize,
    window: &mut CircularBuf<u8>,
    lookahead: &mut CircularBuf<u8>,
    index: &mut MatchIndex,
) -> (b: u8)
    requires
        buffers_ready(*old(window), *old(lookahead)),
        old(index).indexes(input@, recorded(pos - old(lookahead)@.len())),
        lz77_state(input@, pos as int, old(window)@, old(lookahead)@),
        old(lookahead)@.len() > 0,
    ensures
        buffers_ready(*final(window), *final(lookahead)),
        final(index).indexes(input@, recorded(pos - final(lookahead)@.len())),
        lz77_state(input@, pos as int, final(window)@, final(lookahead)@),
        final(lookahead)@ == old(lookahead)@.drop_first(),
        b == old(lookahead)@[0],
{
    let ghost consumed = pos - old(lookahead)@.len();
    let b = lookahead.pop_front().unwrap();
    window.push_back(b);
    proof {
        let w = window@;
        assert(w =~= input@.subrange(consumed + 1 - w.len(), consumed + 1));
        assert(lookahead@ =~= input@.subrange(consumed + 1, pos as int));
    }
    let wlen = window.len();
    if wlen >= 3 {
        let h = hash_of(window.index(wlen - 3), window.index(wlen - 2), window.index(wlen - 1));
        let cur = pos - lookahead.len();
        index.insert(cur - 3, h, Ghost(input@));
    }
    b
}

/// Encodes input from position `*pos - lookahead.len()` on into at most
/// `blksize` symbols, reading bytes at `*pos` into the lookahead as needed.
/// The symbols decode, after the input before them, to the input up to the
/// new position, each the greedy choice where it starts; the result is
/// `LastBlock` exactly when all input is encoded.
#[verifier::rlimit(80)]
pub fn lz77_encode_block(
    input: &[u8],
    pos: &mut usize,
    window: &mut CircularBuf<u8>,
    lookahead: &mut CircularBuf<u8>,
    index: &mut MatchIndex,
    blksize: usize,
) -> (r: Lz77Status)
    requires
        buffers_ready(*old(window), *old(lookahead)),
        old(index).indexes(input@, recorded(*old(pos) - old(lookahead)@.len())),
        lz77_state(input@, *old(pos) as int, old(window)@, old(lookahead)@),
        blksize >= 1,
    ensures
        buffers_ready(*final(window), *final(lookahead)),
        final(index).indexes(input@, recorded(*final(pos) - final(lookahead)@.len())),
        lz77_state(input@, *final(pos) as int, final(window)@, final(lookahead)@),
        ({
            let c0 = *old(pos) - old(lookahead)@.len();
            let c1 = *final(pos) - final(lookahead)@.len();
            let syms = status_symbols(r);
            &&& c0 <= c1
            &&& replay(input@.take(c0), syms) == input@.take(c1)
            &&& stream_valid(input@.take(c0), syms)
            &&& greedy_stream(input@, c0, syms)
            &&& syms.len() <= blksize
            &&& (c0 < input@.len() ==> syms.len() > 0)
            &&& (syms.len() > 0 ==> c0 < c1)
            &&& (r is LastBlock <==> c1 == input@.len())
            &&& (r is Normal ==> syms.len() == blksize)
        }),
{
    let ghost c0 = *pos - lookahead@.len();
    let mut output: Vec<Symbol> = Vec::new();
    let mut done = false;
    proof {
        assert(input@.take(c0) =~= input@.subrange(0, c0));
        assert(stream_valid(input@.take(c0), output@));
        reveal(greedy_stream);
    }
    while !done
        invariant
            buffers_ready(*window, *lookahead),
            index.indexes(input@, recorded(*pos - lookahead@.len())),
            greedy_stream(input@, c0, output@),
            lz77_state(input@, *pos as int, window@, lookahead@),
            c0 <= *pos - lookahead@.len(),
            replay(input@.take(c0), output@) == input@.take(*pos - lookahead@.len()),
            stream_valid(input@.take(c0), output@),
            output@.len() <= blksize,
            !done ==> output@.len() < blksize,
            output@.len() == 0 ==> *pos - lookahead@.len() == c0,
            output@.len() > 0 ==> *pos - lookahead@.len() > c0,
            blksize >= 1,
            c0 < input@.len() && done ==> output@.len() > 0,
            done ==> output@.len() == blksize || *pos - lookahead@.len() == input@.len(),
        decreases input@.len() - (*pos - lookahead@.len()) + (if done { 0int } else { 1int }),
    {
        let ghost cb = *pos - lookahead@.len();
        while !lookahead.is_full() && *pos < input.len()
            invariant
                buffers_ready(*window, *lookahead),
                lz77_state(input@, *pos as int, window@, lookahead@),
                *pos - lookahead@.len() == cb,
            decreases input@.len() - *pos,
        {
            proof {
                lookahead.lemma_len_bound();
            }
            lookahead.push_back(input[*pos]);
            *pos = *pos + 1;
            proof {
                assert(lookahead@ =~= input@.subrange(*pos - lookahead@.len(), *pos as int));
            }
        }
        proof {
            assert(lookahead@.len() == LOOKAHEAD_SIZE || *pos == input@.len());
        }
        if lookahead.is_empty() {
            done = true;
        } else {
            let ghost c = *pos - lookahead@.len();
            let ghost before = output@;
            let ghost out_c = input@.take(c);
            let cur = *pos - lookahead.len();
            proof {
                lookahead.lemma_len_bound();
                if lookahead@.len() == LOOKAHEAD_SIZE {
                    assert(*pos == c + LOOKAHEAD_SIZE);
                } else {
                    assert(*pos == input@.len());
                    assert(c + LOOKAHEAD_SIZE > input@.len());
                }
                assert(lookahead@ =~= lookahead_at(input@, c));
                assert(window@ == window_at(input@, c));
            }
            let found = index.find_match(window, lookahead, cur, Ghost(input@));
            proof {
                assert(greedy_choice(input@, c, match found {
                    Some((length, distance)) => Symbol::Pointer { length: (length - 3) as u8, distance: distance as u16 },
                    None => Symbol::Literal(lookahead@[0]),
                }));
            }
            match found {
                Some((length, distance)) => {
                    let sym = Symbol::Pointer { length: (length - 3) as u8, distance: distance as u16 };
                    proof {
                        let wl = window@.len() as int;
                        let d = distance as int;
                        let l = length as int;
                        assert(out_c.len() == c);
                        assert(symbol_valid_after(out_c, sym));
                        assert forall|j: int| 0 <= j < l implies #[trigger] input@[c + j] == input@[c
                            - d + j] by {
                            assert(window@[wl - d + j] == lookahead@[j]);
                        }
                        lemma_copy_back_periodic(input@, c, d as nat, l as nat);
                        assert(apply_symbol(out_c, sym) == input@.take(c + l));
                    }
                    output.push(sym);
                    let mut k: usize = 0;
                    while k < length
                        invariant
                            buffers_ready(*window, *lookahead),
                            index.indexes(input@, recorded(*pos - lookahead@.len())),
                            lz77_state(input@, *pos as int, window@, lookahead@),
                            k <= length <= LOOKAHEAD_SIZE,
                            *pos - lookahead@.len() == c + k,
                            c + length <= *pos,
                        decreases length - k,
                    {
                        shift_one(input, *pos, window, lookahead, index);
                        k = k + 1;
                    }
                }
                None => {
                    let b = shift_one(input, *pos, window, lookahead, index);
                    let sym = Symbol::Literal(b);
                    proof {
                        assert(apply_symbol(out_c, sym) =~= input@.take(c + 1));
                    }
                    output.push(sym);
                }
            }
            proof {
                assert(output@.drop_last() =~= before);
                assert(output@ =~= before + seq![output@.last()]);
                reveal(greedy_stream);
                assert forall|k: int| 0 <= k < output@.len() implies greedy_choice(
                    input@,
                    replay(input@.take(c0), output@.take(k)).len() as int,
                    #[trigger] output@[k],
                ) by {
                    if k < before.len() {
                        assert(output@.take(k) =~= before.take(k));
                        assert(output@[k] == before[k]);
                    } else {
                        assert(output@.take(k) =~= before);
                    }
                }
                lemma_replay_append(input@.take(c0), before, seq![output@.last()]);
                assert(seq![output@.last()].drop_last() =~= Seq::<Symbol>::empty());
                assert(stream_valid(replay(input@.take(c0), before), seq![output@.last()])) by {
                    assert(seq![output@.last()].take(0) =~= Seq::<Symbol>::empty());
                }
                lemma_stream_valid_append(input@.take(c0), before, seq![output@.last()]);
            }
            if output.len() == blksize {
                done = true;
            }
        }
    }
    if *pos - lookahead.len() == input.len() {
        Lz77Status::LastBlock(output)
    } else {
        Lz77Status::Normal(output)
    }
}


/// Encodes the whole of `input` into one symbol sequence. Replaying it from
/// nothing gives back `input`, and every pointer reaches 1 to 32768 bytes
/// back within what precedes it.
#[verifier::rlimit(80)]
pub fn lz77_lazy_encode(input: &[u8]) -> (r: Vec<Symbol>)
    ensures
        replay(Seq::empty(), r@) == input@,
        stream_valid(Seq::empty(), r@),
{
    let mut window: CircularBuf<u8> = CircularBuf::with_capacity(WINDOW_SIZE);
    let mut lookahead: CircularBuf<u8> = CircularBuf::with_capacity(LOOKAHEAD_SIZE);
    let mut index = MatchIndex::new();
    let mut pos: usize = 0;
    let mut output: Vec<Symbol> = Vec::new();
    let mut done = false;
    proof {
        assert(input@.subrange(0, 0) =~= Seq::<u8>::empty());
        assert(input@.take(0) =~= Seq::<u8>::empty());
    }
    while !done
        invariant
            buffers_ready(window, lookahead),
            index.indexes(input@, recorded(pos - lookahead@.len())),
            lz77_state(input@, pos as int, window@, lookahead@),
            replay(Seq::empty(), output@) == input@.take(pos - lookahead@.len()),
            stream_valid(Seq::empty(), output@),
            done ==> pos - lookahead@.len() == input@.len(),
        decreases input@.len() - (pos - lookahead@.len()) + (if done { 0int } else { 1int }),
    {
        let ghost c0 = pos - lookahead@.len();
        let ghost before = output@;
        let status = lz77_encode_block(input, &mut pos, &mut window, &mut lookahead, &mut index, 65535);
        let ghost syms = status_symbols(status);
        proof {
            lemma_replay_append(Seq::empty(), before, syms);
            lemma_stream_valid_append(Seq::empty(), before, syms);
        }
        let block = match status {
            Lz77Status::Normal(b) => b,
            Lz77Status::LastBlock(b) => {
                done = true;
                b
            },
        };
        let mut i: usize = 0;
        while i < block.len()
            invariant
                i <= block@.len(),
                block@ == syms,
                output@ == before + syms.take(i as int),
            decreases block@.len() - i,
        {
            output.push(block[i]);
            i = i + 1;
            proof {
                assert(output@ =~= before + syms.take(i as int));
            }
        }
        proof {
            assert(syms.take(syms.len() as int) =~= syms);
        }
    }
    proof {
        assert(input@.take(input@.len() as int) =~= input@);
    }
    output
}

} // verus!
