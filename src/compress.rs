//! The sliding-window compressor and the token format that the on-device
//! decompressor reads.
use vstd::prelude::*;

verus! {

/// Byte value that introduces a back-reference; a literal of this value is escaped.
pub const COMPRESS_FLAG: u8 = 0xFF;

/// Number of bytes before the current position that a back-reference may reach.
pub const WINDOW_SIZE: usize = 1024;

/// Longest run of bytes that one back-reference copies.
pub const MAX_COMPRESS_LEN: usize = 63;

/// Number of consecutive equal bytes of `s` starting at `a` and at `b`.
pub open spec fn match_len(s: Seq<u8>, a: int, b: int) -> nat
    decreases s.len() - b,
{
    if 0 <= a < s.len() && 0 <= b < s.len() && s[a] == s[b] {
        1 + match_len(s, a + 1, b + 1)
    } else {
        0
    }
}

/// First position of the window that ends at `i`.
pub open spec fn window_start(i: int) -> int {
    if i >= WINDOW_SIZE {
        i - WINDOW_SIZE
    } else {
        0
    }
}

/// The best match for position `i` among the positions `[lo, end)`: the first
/// position with the greatest match length, or `(lo, 0)` when none matches.
pub open spec fn best_match(s: Seq<u8>, i: int, lo: int, end: int) -> (int, nat)
    decreases end - lo,
{
    if end <= lo {
        (lo, 0)
    } else {
        let prev = best_match(s, i, lo, end - 1);
        let l = match_len(s, end - 1, i);
        if l > prev.1 {
            (end - 1, l)
        } else {
            prev
        }
    }
}

/// The match taken at position `i`: where it starts, and its length capped.
pub open spec fn chosen_match(s: Seq<u8>, i: int) -> (int, nat) {
    let m = best_match(s, i, window_start(i), i);
    (m.0, if m.1 > MAX_COMPRESS_LEN { MAX_COMPRESS_LEN as nat } else { m.1 })
}

/// Encoded size of one byte written as a literal.
pub open spec fn byte_cost(b: u8) -> nat {
    if b == COMPRESS_FLAG {
        2
    } else {
        1
    }
}

/// Encoded size of a byte sequence written as literals.
pub open spec fn literal_cost(x: Seq<u8>) -> nat
    decreases x.len(),
{
    if x.len() == 0 {
        0
    } else {
        literal_cost(x.drop_last()) + byte_cost(x.last())
    }
}

/// Whether the compressor emits a back-reference at position `i`.
pub open spec fn takes_backref(s: Seq<u8>, i: int) -> bool {
    let m = chosen_match(s, i);
    literal_cost(s.subrange(i, i + m.1)) > 3
}

/// A literal token: the byte itself, or the flag followed by zero.
pub open spec fn literal_bytes(b: u8) -> Seq<u8> {
    if b == COMPRESS_FLAG {
        seq![COMPRESS_FLAG, 0u8]
    } else {
        seq![b]
    }
}

/// A back-reference token: the flag, the two high offset bits above the
/// six length bits, then the low eight offset bits.
pub open spec fn backref_bytes(offset: nat, len: nat) -> Seq<u8> {
    seq![COMPRESS_FLAG, ((offset / 256) * 64 + len) as u8, (offset % 256) as u8]
}

/// The bytes emitted at position `i`.
pub open spec fn token_bytes(s: Seq<u8>, i: int) -> Seq<u8> {
    if takes_backref(s, i) {
        let m = chosen_match(s, i);
        backref_bytes((i - m.0 - 1) as nat, m.1)
    } else {
        literal_bytes(s[i])
    }
}

/// How many source bytes the token at position `i` stands for.
pub open spec fn token_advance(s: Seq<u8>, i: int) -> int {
    if takes_backref(s, i) {
        chosen_match(s, i).1 as int
    } else {
        1
    }
}

/// The compressed form of `s` from position `i` on.
pub open spec fn encode_from(s: Seq<u8>, i: int) -> Seq<u8>
    decreases s.len() - i,
    via encode_from_decreases
{
    if 0 <= i < s.len() {
        token_bytes(s, i) + encode_from(s, i + token_advance(s, i))
    } else {
        seq![]
    }
}

#[via_fn]
proof fn encode_from_decreases(s: Seq<u8>, i: int) {
    if 0 <= i < s.len() {
        lemma_token_advance(s, i);
    }
}

/// The compressed form of `s`.
pub open spec fn encode(s: Seq<u8>) -> Seq<u8> {
    encode_from(s, 0)
}

/// Appends `len` bytes to `out`, each a copy of the byte `dist` places before it.
pub open spec fn copy_back(out: Seq<u8>, dist: int, len: nat) -> Seq<u8>
    decreases len,
{
    if len == 0 {
        out
    } else {
        copy_back(out.push(out[out.len() - dist]), dist, (len - 1) as nat)
    }
}

/// Decodes the tokens `c` after the bytes `out` already decoded; `None` when
/// `c` is not a well-formed token stream.
pub open spec fn decode_into(c: Seq<u8>, out: Seq<u8>) -> Option<Seq<u8>>
    decreases c.len(),
{
    if c.len() == 0 {
        Some(out)
    } else if c[0] != COMPRESS_FLAG {
        decode_into(c.drop_first(), out.push(c[0]))
    } else if c.len() >= 2 && c[1] == 0 {
        decode_into(c.subrange(2, c.len() as int), out.push(COMPRESS_FLAG))
    } else if c.len() >= 3 && (c[1] as int / 64) * 256 + c[2] < out.len() {
        let offset = (c[1] as int / 64) * 256 + c[2];
        decode_into(
            c.subrange(3, c.len() as int),
            copy_back(out, offset + 1, (c[1] as int % 64) as nat),
        )
    } else {
        None
    }
}

/// Decodes a whole token stream.
pub open spec fn decode(c: Seq<u8>) -> Option<Seq<u8>> {
    decode_into(c, seq![])
}

proof fn lemma_match_len_bound(s: Seq<u8>, a: int, b: int)
    requires
        0 <= b,
    ensures
        b <= s.len() ==> match_len(s, a, b) <= s.len() - b,
        b >= s.len() ==> match_len(s, a, b) == 0,
    decreases s.len() - b,
{
    if 0 <= a < s.len() && 0 <= b < s.len() && s[a] == s[b] {
        lemma_match_len_bound(s, a + 1, b + 1);
    }
}

proof fn lemma_match_len_equal(s: Seq<u8>, a: int, b: int, t: int)
    requires
        0 <= t < match_len(s, a, b),
    ensures
        0 <= a + t < s.len(),
        0 <= b + t < s.len(),
        s[a + t] == s[b + t],
    decreases t,
{
    if t > 0 {
        lemma_match_len_equal(s, a + 1, b + 1, t - 1);
    }
}

proof fn lemma_best_match(s: Seq<u8>, i: int, lo: int, end: int)
    requires
        0 <= lo <= end <= i < s.len(),
    ensures
        best_match(s, i, lo, end).1 <= s.len() - i,
        best_match(s, i, lo, end).1 == 0 || (lo <= best_match(s, i, lo, end).0 < end
            && match_len(s, best_match(s, i, lo, end).0, i) == best_match(s, i, lo, end).1),
    decreases end - lo,
{
    if end > lo {
        lemma_best_match(s, i, lo, end - 1);
        lemma_match_len_bound(s, end - 1, i);
    }
}

proof fn lemma_literal_cost_bound(x: Seq<u8>)
    ensures
        x.len() <= literal_cost(x) <= 2 * x.len(),
    decreases x.len(),
{
    if x.len() > 0 {
        lemma_literal_cost_bound(x.drop_last());
    }
}

/// Facts on the match taken at `i`: it lies in the window, repeats the bytes
/// at `i`, and a back-reference spans at least two bytes.
proof fn lemma_chosen_match(s: Seq<u8>, i: int)
    requires
        0 <= i < s.len(),
    ensures
        chosen_match(s, i).1 <= s.len() - i,
        chosen_match(s, i).1 <= MAX_COMPRESS_LEN,
        chosen_match(s, i).1 == 0 || (window_start(i) <= chosen_match(s, i).0 < i
            && chosen_match(s, i).1 <= match_len(s, chosen_match(s, i).0, i)),
        takes_backref(s, i) ==> chosen_match(s, i).1 >= 2,
{
    lemma_best_match(s, i, window_start(i), i);
    let m = chosen_match(s, i);
    lemma_literal_cost_bound(s.subrange(i, i + m.1));
}

proof fn lemma_token_advance(s: Seq<u8>, i: int)
    requires
        0 <= i < s.len(),
    ensures
        1 <= token_advance(s, i) <= s.len() - i,
        token_bytes(s, i).len() <= 2 * token_advance(s, i),
{
    lemma_chosen_match(s, i);
}

proof fn lemma_copy_back(s: Seq<u8>, m: int, dist: int, len: nat)
    requires
        1 <= dist <= m,
        m + len <= s.len(),
        forall|t: int| 0 <= t < len ==> #[trigger] s[m + t] == s[m + t - dist],
    ensures
        copy_back(s.subrange(0, m), dist, len) == s.subrange(0, m + len),
    decreases len,
{
    if len > 0 {
        let out = s.subrange(0, m);
        assert(s[m + 0] == s[m + 0 - dist]);
        assert(out.push(out[out.len() - dist]) =~= s.subrange(0, m + 1));
        assert forall|t: int| 0 <= t < len - 1 implies #[trigger] s[m + 1 + t] == s[m + 1 + t - dist] by {
            assert(s[m + (t + 1)] == s[m + (t + 1) - dist]);
        }
        lemma_copy_back(s, m + 1, dist, (len - 1) as nat);
    }
}

proof fn lemma_decode_from(s: Seq<u8>, i: int)
    requires
        0 <= i <= s.len(),
    ensures
        decode_into(encode_from(s, i), s.subrange(0, i)) == Some(s),
    decreases s.len() - i,
{
    if i == s.len() {
        assert(s.subrange(0, i) =~= s);
    } else {
        lemma_chosen_match(s, i);
        lemma_token_advance(s, i);
        let adv = token_advance(s, i);
        let rest = encode_from(s, i + adv);
        let c = encode_from(s, i);
        assert(c == token_bytes(s, i) + rest);
        lemma_decode_from(s, i + adv);
        if takes_backref(s, i) {
            let m = chosen_match(s, i);
            let offset = i - m.0 - 1;
            let len = m.1;
            assert(0 <= offset < 1024);
            assert(c[1] as int == (offset / 256) * 64 + len);
            assert(c[1] as int / 64 == offset / 256);
            assert(c[1] as int % 64 == len);
            assert(c[2] as int == offset % 256);
            assert((c[1] as int / 64) * 256 + c[2] == offset);
            assert(c.subrange(3, c.len() as int) =~= rest);
            assert forall|t: int| 0 <= t < len implies #[trigger] s[i + t] == s[i + t - (offset + 1)] by {
                lemma_match_len_equal(s, m.0, i, t);
            }
            lemma_copy_back(s, i, offset + 1, len);
        } else if s[i] == COMPRESS_FLAG {
            assert(c.subrange(2, c.len() as int) =~= rest);
            assert(s.subrange(0, i).push(COMPRESS_FLAG) =~= s.subrange(0, i + 1));
        } else {
            assert(c.drop_first() =~= rest);
            assert(s.subrange(0, i).push(s[i]) =~= s.subrange(0, i + 1));
        }
    }
}

/// Decoding the compressed form of any byte sequence gives the sequence back.
pub proof fn lemma_round_trip(s: Seq<u8>)
    ensures
        decode(encode(s)) == Some(s),
{
    lemma_decode_from(s, 0);
    assert(s.subrange(0, 0) =~= Seq::<u8>::empty());
}

proof fn lemma_encode_from_len(s: Seq<u8>, i: int)
    requires
        0 <= i <= s.len(),
    ensures
        encode_from(s, i).len() <= 2 * (s.len() - i),
    decreases s.len() - i,
{
    if i < s.len() {
        lemma_token_advance(s, i);
        lemma_encode_from_len(s, i + token_advance(s, i));
    }
}

/// The compressed form is at most twice as long as the input.
pub proof fn lemma_encode_len(s: Seq<u8>)
    ensures
        encode(s).len() <= 2 * s.len(),
{
    lemma_encode_from_len(s, 0);
}

/// Length of the run of equal bytes of `src` starting at `a` and at `b`.
fn match_length(src: &Vec<u8>, a: usize, b: usize) -> (l: usize)
    requires
        a < b < src@.len(),
    ensures
        l == match_len(src@, a as int, b as int),
        b + l <= src@.len(),
{
    let mut l: usize = 0;
    while l < src.len() - b && src[a + l] == src[b + l]
        invariant
            a < b,
            b + l <= src@.len(),
            match_len(src@, a as int, b as int) == l + match_len(
                src@,
                a + l as int,
                b + l as int,
            ),
        decreases src@.len() - b - l,
    {
        l += 1;
    }
    l
}

/// Appends `byte` as a literal token.
fn push_literal(out: &mut Vec<u8>, byte: u8)
    ensures
        final(out)@ == old(out)@ + literal_bytes(byte),
{
    if byte == COMPRESS_FLAG {
        out.push(COMPRESS_FLAG);
        out.push(0x00);
    } else {
        out.push(byte);
    }
    proof {
        assert(final(out)@ =~= old(out)@ + literal_bytes(byte));
    }
}

/// Compresses `src` greedily, left to right: at each position the longest
/// match in the preceding window (the first one among equals) becomes a
/// back-reference when writing its bytes as literals would take more than
/// three bytes; otherwise the byte is written as a literal.
pub fn compress(src: Vec<u8>) -> (output: Vec<u8>)
    ensures
        output@ == encode(src@),
{
    let n = src.len();
    let mut output: Vec<u8> = Vec::new();
    let mut i: usize = 0;
    proof {
        assert(output@ + encode_from(src@, 0) =~= encode(src@));
    }
    while i < n
        invariant
            n == src@.len(),
            i <= n,
            output@ + encode_from(src@, i as int) == encode(src@),
        decreases n - i,
    {
        let ghost s = src@;
        let ghost before = output@;
        let ghost i0 = i as int;
        proof {
            lemma_chosen_match(s, i as int);
            lemma_token_advance(s, i as int);
        }
        let lo: usize = if i >= WINDOW_SIZE {
            i - WINDOW_SIZE
        } else {
            0
        };
        let mut best_pos: usize = lo;
        let mut best_len: usize = 0;
        let mut k: usize = lo;
        while k < i
            invariant
                n == s.len(),
                s == src@,
                i < n,
                lo <= k <= i,
                lo == window_start(i as int),
                (best_pos as int, best_len as nat) == best_match(
                    s,
                    i as int,
                    lo as int,
                    k as int,
                ),
            decreases i - k,
        {
            let l = match_length(&src, k, i);
            if l > best_len {
                best_pos = k;
                best_len = l;
            }
            k += 1;
        }
        let len: usize = if best_len > MAX_COMPRESS_LEN {
            MAX_COMPRESS_LEN
        } else {
            best_len
        };
        assert(chosen_match(s, i as int) == (best_pos as int, len as nat));
        let mut cost: usize = 0;
        let mut t: usize = 0;
        while t < len
            invariant
                n == s.len(),
                s == src@,
                t <= len,
                i + len <= n,
                len <= MAX_COMPRESS_LEN,
                cost <= 2 * t,
                cost == literal_cost(s.subrange(i as int, i + t)),
            decreases len - t,
        {
            let b = src[i + t];
            if b == COMPRESS_FLAG {
                cost += 2;
            } else {
                cost += 1;
            }
            t += 1;
            proof {
                assert(s.subrange(i as int, i + t).drop_last() =~= s.subrange(i as int, i + t - 1));
            }
        }
        if cost > 3 {
            let offset: u16 = (i - best_pos - 1) as u16;
            let length: u16 = len as u16;
            let high: u16 = (offset & 768) >> 2 | length;
            assert(high == (offset / 256) * 64 + length) by (bit_vector)
                requires
                    offset < 1024,
                    length < 64,
                    high == (offset & 768) >> 2 | length,
            ;
            output.push(COMPRESS_FLAG);
            output.push(high as u8);
            output.push((offset % 256) as u8);
            proof {
                assert(output@ =~= before + token_bytes(s, i as int));
            }
            i += len;
        } else {
            push_literal(&mut output, src[i]);
            assert(output@ == before + token_bytes(s, i0));
            i += 1;
        }
        proof {
            assert(encode_from(s, i0) == token_bytes(s, i0) + encode_from(s, i0 + token_advance(s, i0)));
            assert(output@ + encode_from(s, i as int) =~= before + encode_from(s, i0));
        }
    }
    output
}

} // verus!
