//! The Intel-HEX record checksum: the two's-complement negation of the
//! byte sum modulo 256.

use vstd::prelude::*;
use vstd::slice::slice_index_get;

verus! {

/// Sum of a byte sequence as a plain integer.
pub open spec fn byte_sum(s: Seq<u8>) -> int
    decreases s.len(),
{
    if s.len() == 0 {
        0
    } else {
        byte_sum(s.drop_last()) + s.last()
    }
}

pub proof fn lemma_byte_sum_nonneg(s: Seq<u8>)
    ensures
        0 <= byte_sum(s),
    decreases s.len(),
{
    if s.len() > 0 {
        lemma_byte_sum_nonneg(s.drop_last());
    }
}

/// The checksum of a byte sequence: the unique byte `c` such that
/// `(byte_sum(s) + c) % 256 == 0`.
pub open spec fn checksum_spec(s: Seq<u8>) -> u8 {
    ((256 - byte_sum(s) % 256) % 256) as u8
}

/// The defining property of the checksum: appending it closes the sum
/// to a multiple of 256.
pub proof fn lemma_checksum_closes(s: Seq<u8>)
    ensures
        (byte_sum(s) + checksum_spec(s)) % 256 == 0,
{
    lemma_byte_sum_nonneg(s);
}

/// Changing one summed byte changes the sum by the difference of the bytes.
pub proof fn lemma_byte_sum_update(s: Seq<u8>, i: int, x: u8)
    requires
        0 <= i < s.len(),
    ensures
        byte_sum(s.update(i, x)) == byte_sum(s) - s[i] + x,
    decreases s.len(),
{
    if i == s.len() - 1 {
        assert(s.update(i, x).drop_last() =~= s.drop_last());
        assert(s.update(i, x).last() == x);
    } else {
        lemma_byte_sum_update(s.drop_last(), i, x);
        assert(s.update(i, x).drop_last() =~= s.drop_last().update(i, x));
        assert(s.update(i, x).last() == s.last());
    }
}

/// A corrupted byte never goes unnoticed: replacing any summed byte by a
/// different value changes the checksum.
pub proof fn lemma_checksum_detects_change(s: Seq<u8>, i: int, x: u8)
    requires
        0 <= i < s.len(),
        x != s[i],
    ensures
        checksum_spec(s.update(i, x)) != checksum_spec(s),
{
    lemma_byte_sum_update(s, i, x);
    lemma_byte_sum_nonneg(s);
    let a = byte_sum(s);
    let b = byte_sum(s.update(i, x));
    assert(b == a - s[i] + x);
    assert(b % 256 != a % 256) by {
        let d = x - s[i];
        assert(-256 < d < 256 && d != 0);
        assert(b == a + d);
        vstd::arithmetic::div_mod::lemma_mod_adds(a, d, 256);
        vstd::arithmetic::div_mod::lemma_mod_bound(a, 256);
        vstd::arithmetic::div_mod::lemma_mod_bound(d, 256);
    }
}

/// Computes the Intel-HEX checksum of a record's bytes.
pub fn hex_checksum(bytes: &[u8]) -> (r: u8)
    ensures
        r == checksum_spec(bytes@),
{
    let mut acc: u8 = 0;
    let mut i: usize = 0;
    while i < bytes.len()
        invariant
            i <= bytes@.len(),
            acc as int == byte_sum(bytes@.take(i as int)) % 256,
        decreases bytes@.len() - i,
    {
        let b = *slice_index_get(bytes, i);
        proof {
            let t = bytes@.take(i + 1);
            assert(t.drop_last() =~= bytes@.take(i as int));
            assert(t.last() == bytes@[i as int]);
            lemma_byte_sum_nonneg(bytes@.take(i as int));
            vstd::arithmetic::div_mod::lemma_mod_adds(
                byte_sum(bytes@.take(i as int)),
                b as int,
                256,
            );
        }
        acc = acc.wrapping_add(b);
        i += 1;
    }
    proof {
        assert(bytes@.take(bytes@.len() as int) =~= bytes@);
        lemma_byte_sum_nonneg(bytes@);
    }
    (255 - acc).wrapping_add(1)
}

} // verus!
