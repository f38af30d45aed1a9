//! The 16-bit wrapping byte-sum that closes a variable file.
use vstd::prelude::*;

verus! {

/// Plain sum of the bytes of `s`.
pub open spec fn byte_sum(s: Seq<u8>) -> nat
    decreases s.len(),
{
    if s.len() == 0 {
        0
    } else {
        byte_sum(s.drop_last()) + s.last() as nat
    }
}

/// Plain sum of the bytes of all the parts.
pub open spec fn parts_sum(parts: Seq<&[u8]>) -> nat
    decreases parts.len(),
{
    if parts.len() == 0 {
        0
    } else {
        parts_sum(parts.drop_last()) + byte_sum(parts.last()@)
    }
}

/// The two little-endian bytes of a value below 65536.
pub open spec fn le16(v: int) -> Seq<u8> {
    seq![(v % 256) as u8, (v / 256) as u8]
}

/// The checksum of a byte sequence: its sum modulo 65536, little-endian.
pub open spec fn checksum_of(s: Seq<u8>) -> Seq<u8> {
    le16(byte_sum(s) as int % 65536)
}

/// The sum of a concatenation is the sum of the sums.
pub proof fn lemma_byte_sum_concat(a: Seq<u8>, b: Seq<u8>)
    ensures
        byte_sum(a + b) == byte_sum(a) + byte_sum(b),
    decreases b.len(),
{
    if b.len() == 0 {
        assert(a + b =~= a);
    } else {
        assert((a + b).drop_last() =~= a + b.drop_last());
        lemma_byte_sum_concat(a, b.drop_last());
    }
}

/// Sums the bytes of all the parts, in order, with 16-bit wrap-around, and
/// returns the sum little-endian.
pub fn compute_checksum(data: &[&[u8]]) -> (r: [u8; 2])
    ensures
        r@ == le16(parts_sum(data@) as int % 65536),
{
    let mut acc: u16 = 0;
    let mut k: usize = 0;
    while k < data.len()
        invariant
            k <= data@.len(),
            acc == parts_sum(data@.subrange(0, k as int)) % 65536,
        decreases data@.len() - k,
    {
        let part: &[u8] = data[k];
        let ghost before = parts_sum(data@.subrange(0, k as int));
        let mut t: usize = 0;
        while t < part.len()
            invariant
                t <= part@.len(),
                acc == (before + byte_sum(part@.subrange(0, t as int))) % 65536,
            decreases part@.len() - t,
        {
            let b: u8 = part[t];
            proof {
                assert(part@.subrange(0, t + 1).drop_last() =~= part@.subrange(0, t as int));
                vstd::arithmetic::div_mod::lemma_add_mod_noop(
                    (before + byte_sum(part@.subrange(0, t as int))) as int,
                    b as int,
                    65536,
                );
            }
            acc = acc.wrapping_add(b as u16);
            t += 1;
        }
        proof {
            assert(part@.subrange(0, t as int) =~= part@);
            assert(data@.subrange(0, k + 1).drop_last() =~= data@.subrange(0, k as int));
        }
        k += 1;
    }
    proof {
        assert(data@.subrange(0, k as int) =~= data@);
    }
    [(acc % 256) as u8, (acc / 256) as u8]
}

} // verus!
