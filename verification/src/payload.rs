//! The codec core: decoding Intel-HEX record text and VHX word-chunk
//! text into a dense memory image, and encoding an image back into
//! either form.

use vstd::arithmetic::div_mod::lemma_fundamental_div_mod_converse;
use vstd::prelude::*;
use vstd::slice::slice_index_get;
use vstd::slice::slice_subrange;

use crate::checksum::checksum_spec;
use crate::checksum::hex_checksum;
use crate::hexdigits::hex_decode_bytes;
use crate::hexdigits::hex_decode_ok;
use crate::hexdigits::hex_decode_val;
use crate::hexdigits::hex_encode_lower_bytes;
use crate::hexdigits::hex_encode_upper_bytes;
use crate::hexdigits::hex_lower;
use crate::hexdigits::hex_upper;
use crate::hexdigits::is_hex_digit;
use crate::lines::lines_of;
use crate::lines::split_lines;

verus! {

/// Why decoding a file's content failed.
#[derive(Debug, Clone, Copy, PartialEq, Eq)]
pub enum DecodeError {
    /// A record line was not valid hex after its marker character.
    InvalidHex { line: usize },
    /// A record line decoded to fewer than five bytes, or its count
    /// field did not fit in the line.
    MalformedRecord { line: usize },
    /// The recomputed checksum differs from the stored checksum byte.
    ChecksumMismatch { line: usize, computed: u8, included: u8 },
    /// An extended segment address record whose payload is not two bytes.
    SegmentAddressLength { line: usize },
    /// An extended linear address record whose payload is not two bytes.
    LinearAddressLength { line: usize },
    /// Little-endian word swapping demands a word-aligned byte count.
    NotWordAligned,
    /// A VHX stream held an odd number of hex digits.
    OddDigitCount,
    /// A VHX stream's byte count is not a whole number of chunks.
    IncompleteChunk,
}

/// The absolute address of a data byte: the extended linear address
/// forms the high half-word, and the extended segment address (times
/// 16) shifts the record's 16-bit base address.
pub open spec fn abs_addr(ela: u16, esa: u16, base: u16, off: int) -> u32 {
    ((ela as u32) << 16) | ((16 * (esa as int) + base + off) as u32)
}

/// Scans record lines from index `i` on, collecting addressed bytes.
/// `esa` and `ela` are the extended segment and linear address
/// registers; an end-of-file record stops the scan.
pub open spec fn scan_lines(
    ls: Seq<Seq<u8>>,
    i: int,
    esa: u16,
    ela: u16,
    acc: Seq<(u32, u8)>,
) -> Result<Seq<(u32, u8)>, DecodeError>
    decreases ls.len() - i,
{
    if i < 0 || i >= ls.len() {
        Ok(acc)
    } else {
        let l = ls[i];
        if l.len() < 1 {
            Err(DecodeError::MalformedRecord { line: i as usize })
        } else if !hex_decode_ok(l.skip(1)) {
            Err(DecodeError::InvalidHex { line: i as usize })
        } else {
            let b = hex_decode_val(l.skip(1));
            if b.len() < 5 {
                Err(DecodeError::MalformedRecord { line: i as usize })
            } else if b.last() != checksum_spec(b.drop_last()) {
                Err(
                    DecodeError::ChecksumMismatch {
                        line: i as usize,
                        computed: checksum_spec(b.drop_last()),
                        included: b.last(),
                    },
                )
            } else {
                let count = b[0] as int;
                if count + 1 > b.len() {
                    Err(DecodeError::MalformedRecord { line: i as usize })
                } else {
                    let base = (b[1] * 256 + b[2]) as u16;
                    let payload = b.subrange(b.len() - 1 - count, b.len() - 1);
                    if b[3] == 0 {
                        scan_lines(
                            ls,
                            i + 1,
                            esa,
                            ela,
                            acc + Seq::new(
                                count as nat,
                                |j: int| (abs_addr(ela, esa, base, j), payload[j]),
                            ),
                        )
                    } else if b[3] == 1 {
                        Ok(acc)
                    } else if b[3] == 2 {
                        if count != 2 {
                            Err(DecodeError::SegmentAddressLength { line: i as usize })
                        } else {
                            scan_lines(ls, i + 1, (payload[0] * 256 + payload[1]) as u16, ela, acc)
                        }
                    } else if b[3] == 4 {
                        if count != 2 {
                            Err(DecodeError::LinearAddressLength { line: i as usize })
                        } else {
                            scan_lines(ls, i + 1, esa, (payload[0] * 256 + payload[1]) as u16, acc)
                        }
                    } else {
                        scan_lines(ls, i + 1, esa, ela, acc)
                    }
                }
            }
        }
    }
}

/// Address-then-value order on collected pairs.
pub open spec fn pair_le(a: (u32, u8), b: (u32, u8)) -> bool {
    a.0 < b.0 || (a.0 == b.0 && a.1 <= b.1)
}

/// Whether a pair sequence is sorted.
pub open spec fn pairs_sorted(s: Seq<(u32, u8)>) -> bool {
    forall|i: int, j: int| 0 <= i < j < s.len() ==> pair_le(s[i], s[j])
}

/// Inserts a pair into a sorted sequence, after every entry that is
/// not above it.
pub open spec fn insert_pair(s: Seq<(u32, u8)>, p: (u32, u8)) -> Seq<(u32, u8)>
    decreases s.len(),
{
    if s.len() == 0 {
        seq![p]
    } else if pair_le(s.last(), p) {
        s.push(p)
    } else {
        insert_pair(s.drop_last(), p).push(s.last())
    }
}

/// Sorts pairs by address, then value.
pub open spec fn sort_pairs(s: Seq<(u32, u8)>) -> Seq<(u32, u8)>
    decreases s.len(),
{
    if s.len() == 0 {
        Seq::empty()
    } else {
        insert_pair(sort_pairs(s.drop_last()), s.last())
    }
}

/// The fill bytes owed before a byte whose address leaves a gap behind
/// the previous one.
pub open spec fn gap_fill(gap: int, fill: u8) -> Seq<u8> {
    if gap <= 1 {
        Seq::empty()
    } else {
        Seq::new((gap - 1) as nat, |j: int| fill)
    }
}

/// Folds sorted pairs into a dense byte sequence; `prev` is the
/// address of the last placed byte.
pub open spec fn fill_from(s: Seq<(u32, u8)>, prev: u32, fill: u8) -> Seq<u8>
    decreases s.len(),
{
    if s.len() == 0 {
        Seq::empty()
    } else {
        gap_fill(s[0].0 - prev, fill) + seq![s[0].1] + fill_from(s.skip(1), s[0].0, fill)
    }
}

/// The dense image of a sorted pair sequence: gaps between consecutive
/// addresses are filled, starting at the first pair's address.
pub open spec fn dense_of(s: Seq<(u32, u8)>, fill: u8) -> Seq<u8> {
    if s.len() == 0 {
        Seq::empty()
    } else {
        fill_from(s, s[0].0, fill)
    }
}

/// Every aligned four-byte word reversed in place.
pub open spec fn word_swap(s: Seq<u8>) -> Seq<u8> {
    Seq::new(s.len(), |i: int| s[4 * (i / 4) + 3 - (i % 4)])
}

/// Word order reversed within every aligned chunk of `w` words.
pub open spec fn chunk_rev(s: Seq<u8>, w: int) -> Seq<u8> {
    Seq::new(
        s.len(),
        |i: int|
            {
                let cs = 4 * w;
                s[(i / cs) * cs + (cs - 4 - 4 * ((i % cs) / 4)) + (i % cs) % 4]
            },
    )
}

/// Division facts for a concrete decomposition `x == d * q + r`.
pub proof fn lemma_divmod(x: int, d: int, q: int, r: int)
    requires
        0 < d,
        x == q * d + r,
        0 <= r < d,
    ensures
        x / d == q,
        x % d == r,
{
    lemma_fundamental_div_mod_converse(x, d, q, r);
}

/// Appending one reversed word extends a word swap by one word.
proof fn lemma_word_swap_step(t: Seq<u8>, n: int)
    requires
        0 <= n,
        4 * n + 4 <= t.len(),
    ensures
        word_swap(t.take(4 * n + 4)) == word_swap(t.take(4 * n)) + seq![
            t[4 * n + 3],
            t[4 * n + 2],
            t[4 * n + 1],
            t[4 * n],
        ],
{
    let lhs = word_swap(t.take(4 * n + 4));
    let rhs = word_swap(t.take(4 * n)) + seq![t[4 * n + 3], t[4 * n + 2], t[4 * n + 1], t[4 * n]];
    assert forall|i: int| 0 <= i < 4 * n + 4 implies lhs[i] == rhs[i] by {
        lemma_divmod(i, 4, i / 4, i % 4);
        if i < 4 * n {
            assert(4 * (i / 4) + 3 - (i % 4) < 4 * n) by {
                assert(i / 4 < n) by {
                    if i / 4 >= n {
                        assert(4 * (i / 4) >= 4 * n) by (nonlinear_arith)
                            requires i / 4 >= n;
                    }
                }
                assert(4 * (i / 4) + 4 <= 4 * n) by (nonlinear_arith)
                    requires i / 4 < n;
            }
        } else {
            lemma_divmod(i, 4, n, i - 4 * n);
        }
    }
    assert(lhs =~= rhs);
}

/// Inserting at the position that splits the entries not above `p`
/// from the rest is what `insert_pair` does.
proof fn lemma_insert_pair_at(s: Seq<(u32, u8)>, p: (u32, u8), j: int)
    requires
        0 <= j <= s.len(),
        forall|k: int| 0 <= k < j ==> pair_le(s[k], p),
        forall|k: int| j <= k < s.len() ==> !pair_le(s[k], p),
    ensures
        insert_pair(s, p) == s.take(j) + seq![p] + s.skip(j),
    decreases s.len(),
{
    if s.len() == 0 {
        assert(insert_pair(s, p) =~= s.take(j) + seq![p] + s.skip(j));
    } else if pair_le(s.last(), p) {
        assert(j == s.len());
        assert(insert_pair(s, p) =~= s.take(j) + seq![p] + s.skip(j));
    } else {
        assert(j < s.len());
        let dl = s.drop_last();
        lemma_insert_pair_at(dl, p, j);
        assert(insert_pair(s, p) =~= s.take(j) + seq![p] + s.skip(j));
    }
}

/// Exec comparison mirroring `pair_le`.
fn pair_le_exec(a: (u32, u8), b: (u32, u8)) -> (r: bool)
    ensures
        r == pair_le(a, b),
{
    a.0 < b.0 || (a.0 == b.0 && a.1 <= b.1)
}

/// Sorts the collected address/byte pairs by address, then value.
fn sort_memory(v: &Vec<(u32, u8)>) -> (r: Vec<(u32, u8)>)
    ensures
        r@ == sort_pairs(v@),
        pairs_sorted(r@),
{
    let mut r: Vec<(u32, u8)> = Vec::new();
    let mut i: usize = 0;
    proof {
        assert(v@.take(0) =~= Seq::<(u32, u8)>::empty());
    }
    while i < v.len()
        invariant
            i <= v@.len(),
            r@ == sort_pairs(v@.take(i as int)),
            pairs_sorted(r@),
        decreases v@.len() - i,
    {
        let p = v[i];
        let mut j: usize = r.len();
        while j > 0 && !pair_le_exec(r[j - 1], p)
            invariant
                j <= r@.len(),
                forall|k: int| j <= k < r@.len() ==> !pair_le(r@[k], p),
            decreases j,
        {
            j -= 1;
        }
        proof {
            assert forall|k: int| 0 <= k < j implies pair_le(r@[k], p) by {
                assert(pair_le(r@[j - 1], p));
                if k < j - 1 {
                    assert(pair_le(r@[k], r@[j - 1]));
                }
            }
        }
        let ghost r0 = r@;
        r.insert(j, p);
        proof {
            lemma_insert_pair_at(r0, p, j as int);
            assert(r@ =~= r0.take(j as int) + seq![p] + r0.skip(j as int));
            assert(v@.take(i + 1).drop_last() =~= v@.take(i as int));
            assert(v@.take(i + 1).last() == v@[i as int]);
            assert(r@ == sort_pairs(v@.take(i + 1)));
            assert forall|a: int, b: int| 0 <= a < b < r@.len() implies pair_le(r@[a], r@[b]) by {
                if a < j && b == j {
                } else if a == j && b > j {
                    assert(!pair_le(r0[b - 1], p));
                } else if b > j && a < j {
                    assert(!pair_le(r0[b - 1], p));
                    assert(pair_le(r0[a], p));
                } else if b > j && a > j {
                    assert(pair_le(r0[a - 1], r0[b - 1]));
                } else {
                    assert(pair_le(r0[a], r0[b]));
                }
            }
        }
        i += 1;
    }
    proof {
        assert(v@.take(v@.len() as int) =~= v@);
    }
    r
}

/// Reverses each aligned four-byte word of a word-aligned buffer.
fn swap_words(v: &[u8]) -> (r: Vec<u8>)
    requires
        v@.len() % 4 == 0,
    ensures
        r@ == word_swap(v@),
{
    let mut r: Vec<u8> = Vec::new();
    let mut w: usize = 0;
    proof {
        assert(v@.take(0) =~= Seq::<u8>::empty());
        assert(word_swap(Seq::<u8>::empty()) =~= Seq::<u8>::empty());
    }
    while w < v.len()
        invariant
            w % 4 == 0,
            w <= v@.len(),
            v@.len() % 4 == 0,
            r@ == word_swap(v@.take(w as int)),
        decreases v@.len() - w,
    {
        let ghost n = w as int / 4;
        proof {
            lemma_divmod(w as int, 4, n, 0);
            assert(w + 4 <= v@.len()) by {
                lemma_divmod(v@.len() as int, 4, v@.len() as int / 4, 0);
                assert(n < v@.len() as int / 4) by (nonlinear_arith)
                    requires
                        4 * n < 4 * (v@.len() as int / 4),
                ;
                assert(4 * (n + 1) <= 4 * (v@.len() as int / 4)) by (nonlinear_arith)
                    requires
                        n < v@.len() as int / 4,
                ;
            }
            lemma_word_swap_step(v@, n);
        }
        r.push(*slice_index_get(v, w + 3));
        r.push(*slice_index_get(v, w + 2));
        r.push(*slice_index_get(v, w + 1));
        r.push(*slice_index_get(v, w));
        proof {
            assert(r@ =~= word_swap(v@.take(w + 4)));
        }
        w += 4;
    }
    proof {
        assert(w == v@.len());
        assert(v@.take(w as int) =~= v@);
    }
    r
}

/// The word swap is an involution on word-aligned sequences.
pub proof fn lemma_word_swap_involution(s: Seq<u8>)
    requires
        s.len() % 4 == 0,
    ensures
        word_swap(word_swap(s)) == s,
{
    let d = word_swap(word_swap(s));
    assert forall|i: int| 0 <= i < s.len() implies d[i] == s[i] by {
        let q = i / 4;
        let r = i % 4;
        lemma_divmod(i, 4, q, r);
        let j = 4 * q + 3 - r;
        lemma_divmod(j, 4, q, 3 - r);
        assert(j < s.len()) by {
            assert(4 * q + 4 <= s.len()) by (nonlinear_arith)
                requires
                    s.len() % 4 == 0,
                    q == i / 4,
                    0 <= i < s.len(),
                    i == 4 * q + i % 4,
                    0 <= i % 4 < 4,
            ;
        }
        assert(word_swap(s)[j] == s[4 * q + 3 - (3 - r)]);
        assert(4 * q + 3 - (3 - r) == i);
    }
    assert(d =~= s);
}

/// The hex digit bytes of a stream, in order; all else is dropped.
pub open spec fn hex_digits_of(s: Seq<u8>) -> Seq<u8>
    decreases s.len(),
{
    if s.len() == 0 {
        Seq::empty()
    } else if is_hex_digit(s[0]) {
        seq![s[0]] + hex_digits_of(s.skip(1))
    } else {
        hex_digits_of(s.skip(1))
    }
}

/// Every byte kept by the digit filter is a hex digit.
pub proof fn lemma_hex_digits_of_digits(s: Seq<u8>)
    ensures
        forall|i: int| 0 <= i < hex_digits_of(s).len() ==> is_hex_digit(hex_digits_of(s)[i]),
    decreases s.len(),
{
    if s.len() > 0 {
        lemma_hex_digits_of_digits(s.skip(1));
        let d = hex_digits_of(s);
        let rest = hex_digits_of(s.skip(1));
        if is_hex_digit(s[0]) {
            assert forall|i: int| 0 <= i < d.len() implies is_hex_digit(d[i]) by {
                if i > 0 {
                    assert(d[i] == rest[i - 1]);
                }
            }
        } else {
            assert forall|i: int| 0 <= i < d.len() implies is_hex_digit(d[i]) by {
                assert(d[i] == rest[i]);
            }
        }
    }
}

/// The image a VHX text denotes: keep only the hex digits, decode
/// them, and reverse the word order within each chunk of
/// `chunk_bits / 32` words.
pub open spec fn vhx_image(content: Seq<u8>, chunk_bits: usize) -> Result<Seq<u8>, DecodeError> {
    let digits = hex_digits_of(content);
    let w = chunk_bits as int / 32;
    if digits.len() % 2 != 0 {
        Err(DecodeError::OddDigitCount)
    } else {
        let raw = hex_decode_val(digits);
        if raw.len() as int % (4 * w) != 0 {
            Err(DecodeError::IncompleteChunk)
        } else {
            Ok(chunk_rev(raw, w))
        }
    }
}

/// Reversing the chunks of a whole sequence, restricted to one chunk,
/// reverses that chunk alone.
pub proof fn lemma_chunk_rev_chunk(s: Seq<u8>, w: int, c: int)
    requires
        1 <= w,
        0 <= c,
        c % (4 * w) == 0,
        c + 4 * w <= s.len(),
    ensures
        chunk_rev(s, w).subrange(c, c + 4 * w) == chunk_rev(s.subrange(c, c + 4 * w), w),
{
    let cs = 4 * w;
    let q = c / cs;
    vstd::arithmetic::div_mod::lemma_fundamental_div_mod(c, cs);
    assert(cs * q == q * cs) by (nonlinear_arith);
    let lhs = chunk_rev(s, w).subrange(c, c + cs);
    let rhs = chunk_rev(s.subrange(c, c + cs), w);
    assert forall|i: int| 0 <= i < cs implies lhs[i] == rhs[i] by {
        let gi = c + i;
        lemma_divmod(c, cs, q, 0);
        lemma_divmod(gi, cs, q, i);
        lemma_divmod(i, cs, 0, i);
        assert(lhs[i] == s[q * cs + (cs - 4 - 4 * (i / 4)) + i % 4]);
        assert(rhs[i] == s.subrange(c, c + cs)[(cs - 4 - 4 * (i / 4)) + i % 4]);
    }
    assert(lhs =~= rhs);
}

/// Copies one chunk of `cs` bytes starting at `c`, reversing the order
/// of its four-byte words.
fn rev_chunk(src: &[u8], c: usize, cs: usize) -> (r: Vec<u8>)
    requires
        cs % 4 == 0,
        4 <= cs,
        c + cs <= src@.len(),
        c + cs <= usize::MAX,
    ensures
        r@ == chunk_rev(src@.subrange(c as int, c + cs), cs as int / 4),
{
    let ghost chunk = src@.subrange(c as int, c + cs);
    let ghost w = cs as int / 4;
    let ghost target = chunk_rev(chunk, w);
    proof {
        lemma_divmod(cs as int, 4, w, 0);
    }
    let mut r: Vec<u8> = Vec::new();
    let mut k: usize = 0;
    let base0 = c + cs - 4;
    proof {
        assert(r@ =~= target.take(0));
    }
    while k < cs / 4
        invariant
            k <= w,
            w == cs as int / 4,
            cs == 4 * w,
            base0 == c + cs - 4,
            c + cs <= src@.len(),
            c + cs <= usize::MAX,
            chunk == src@.subrange(c as int, c + cs),
            target == chunk_rev(chunk, w),
            r@ == target.take(4 * k),
        decreases w - k,
    {
        proof {
            lemma_divmod(cs as int, 4, w, 0);
            assert(4 * k + 4 <= cs);
        }
        let base = base0 - 4 * k;
        r.push(*slice_index_get(src, base));
        r.push(*slice_index_get(src, base + 1));
        r.push(*slice_index_get(src, base + 2));
        r.push(*slice_index_get(src, base + 3));
        proof {
            let kk = k as int;
            lemma_divmod(4 * kk, cs as int, 0, 4 * kk);
            lemma_divmod(4 * kk, 4, kk, 0);
            lemma_divmod(4 * kk + 1, cs as int, 0, 4 * kk + 1);
            lemma_divmod(4 * kk + 1, 4, kk, 1);
            lemma_divmod(4 * kk + 2, cs as int, 0, 4 * kk + 2);
            lemma_divmod(4 * kk + 2, 4, kk, 2);
            lemma_divmod(4 * kk + 3, cs as int, 0, 4 * kk + 3);
            lemma_divmod(4 * kk + 3, 4, kk, 3);
            assert(target[4 * kk] == chunk[cs - 4 - 4 * kk]);
            assert(target[4 * kk + 1] == chunk[cs - 4 - 4 * kk + 1]);
            assert(target[4 * kk + 2] == chunk[cs - 4 - 4 * kk + 2]);
            assert(target[4 * kk + 3] == chunk[cs - 4 - 4 * kk + 3]);
            assert(r@ =~= target.take(4 * (k + 1)));
        }
        k += 1;
    }
    proof {
        assert(target.take(4 * w) =~= target);
    }
    r
}

/// One VHX line: the chunk's words hex-encoded lowercase, last word
/// first, closed by a newline.
pub open spec fn vhx_line(chunk: Seq<u8>, w: int) -> Seq<u8> {
    hex_lower(chunk_rev(chunk, w)) + seq![10u8]
}

/// The VHX rendering of a byte sequence from offset `o` on: one line
/// per whole chunk of `w` words; trailing bytes short of a chunk are
/// dropped.
pub open spec fn vhx_text_from(bytes: Seq<u8>, w: int, o: int) -> Seq<u8>
    decreases bytes.len() - o
    when 1 <= w && 0 <= o
{
    if o + 4 * w > bytes.len() {
        Seq::empty()
    } else {
        vhx_line(bytes.subrange(o, o + 4 * w), w) + vhx_text_from(bytes, w, o + 4 * w)
    }
}

/// The whole VHX rendering of a byte sequence.
pub open spec fn vhx_text(bytes: Seq<u8>, w: int) -> Seq<u8> {
    vhx_text_from(bytes, w, 0)
}

/// A whole number of chunks ahead of `c` leaves room for one more.
pub proof fn lemma_next_chunk(len: int, cs: int, c: int)
    requires
        0 < cs,
        0 <= c < len,
        c % cs == 0,
        len % cs == 0,
    ensures
        c + cs <= len,
{
    let q = c / cs;
    let m = len / cs;
    vstd::arithmetic::div_mod::lemma_fundamental_div_mod(c, cs);
    vstd::arithmetic::div_mod::lemma_fundamental_div_mod(len, cs);
    lemma_divmod(c, cs, q, 0);
    lemma_divmod(len, cs, m, 0);
    assert(c + cs <= len) by (nonlinear_arith)
        requires
            c == cs * q,
            len == cs * m,
            0 < cs,
            c < len,
    ;
}

/// One emitted record line: the marker, the uppercase hex of the
/// payload with its checksum appended, and a newline.
pub open spec fn record_line(p: Seq<u8>) -> Seq<u8> {
    seq![58u8] + hex_upper(p.push(checksum_spec(p))) + seq![10u8]
}

/// The data bytes of one record group: its whole words, each
/// byte-reversed when little-endian; a trailing partial word is
/// dropped from the data though counted in the header.
pub open spec fn group_payload(g: Seq<u8>, little: bool) -> Seq<u8> {
    let whole = g.take(4 * (g.len() as int / 4));
    if little {
        word_swap(whole)
    } else {
        whole
    }
}

/// The data record for the group of up to sixteen bytes at offset `o`:
/// its length, the low sixteen bits of its address, the type byte zero,
/// and its data.
pub open spec fn data_record(start: u32, bytes: Seq<u8>, o: int, little: bool) -> Seq<u8> {
    let end = if o + 16 <= bytes.len() {
        o + 16
    } else {
        bytes.len() as int
    };
    let g = bytes.subrange(o, end);
    let a = (start + o) % 0x10000;
    record_line(
        seq![g.len() as u8, (a / 256) as u8, (a % 256) as u8, 0u8] + group_payload(g, little),
    )
}

/// All data records from offset `o` on, in sixteen-byte strides.
pub open spec fn data_records(start: u32, bytes: Seq<u8>, o: int, little: bool) -> Seq<u8>
    decreases bytes.len() + 16 - o
    when 0 <= o <= bytes.len() + 16
{
    if o >= bytes.len() {
        Seq::empty()
    } else {
        data_record(start, bytes, o, little) + data_records(start, bytes, o + 16, little)
    }
}

/// The leading extended linear address record, carrying the high
/// sixteen bits of the start address.
pub open spec fn ext_record(start: u32) -> Seq<u8> {
    record_line(seq![2u8, 0u8, 0u8, 4u8, (start >> 24) as u8, (start >> 16) as u8])
}

/// The whole Intel-HEX rendering of an image: the extended address
/// record, the data records, and the end-of-file record.
pub open spec fn hex_text(start: u32, bytes: Seq<u8>, little: bool) -> Seq<u8> {
    ext_record(start) + data_records(start, bytes, 0, little) + record_line(seq![0u8, 0u8, 0u8, 1u8])
}

/// Big-endian bytes of a 32-bit value.
pub open spec fn be32(a: int) -> Seq<u8> {
    seq![
        ((a / 0x1000000) % 256) as u8,
        ((a / 0x10000) % 256) as u8,
        ((a / 256) % 256) as u8,
        (a % 256) as u8,
    ]
}

/// The words of a display row, hex-encoded and space-separated.
pub open spec fn row_words(g: Seq<u8>) -> Seq<u8>
    decreases g.len(),
{
    if g.len() < 4 {
        Seq::empty()
    } else if g.len() < 8 {
        hex_lower(g.take(4))
    } else {
        row_words(g.take(g.len() - 4)) + seq![32u8] + hex_lower(g.skip(g.len() - 4))
    }
}

/// The display rows from offset `o` on: each row is the row's address
/// in eight hex digits, a colon and a space, up to four words, and a
/// newline.
#[verifier::opaque]
pub open spec fn render_rows(start: u32, wb: Seq<u8>, o: int) -> Seq<u8>
    decreases wb.len() + 16 - o
    when 0 <= o <= wb.len() + 16
{
    if o >= wb.len() {
        Seq::empty()
    } else {
        let end = if o + 16 <= wb.len() {
            o + 16
        } else {
            wb.len() as int
        };
        hex_lower(be32((start + o) % 0x1_0000_0000)) + seq![58u8, 32u8] + row_words(
            wb.subrange(o, end),
        ) + seq![10u8] + render_rows(start, wb, o + 16)
    }
}

/// The address-annotated hex dump of an image: sixteen bytes per row;
/// trailing bytes short of a whole word are dropped.
pub open spec fn render_text(start: u32, bytes: Seq<u8>) -> Seq<u8> {
    render_rows(start, bytes.take(4 * (bytes.len() as int / 4)), 0)
}

/// Appends one record line for `payload` to `out`.
fn emit_record(out: &mut Vec<u8>, payload: Vec<u8>)
    ensures
        final (out)@ == old(out)@ + record_line(payload@),
{
    let ghost p0 = payload@;
    out.push(58);
    let c = hex_checksum(payload.as_slice());
    let mut line = payload;
    line.push(c);
    let enc = hex_encode_upper_bytes(line.as_slice());
    out.extend_from_slice(enc.as_slice());
    out.push(10);
    proof {
        assert(line@ =~= p0.push(checksum_spec(p0)));
        assert(out@ =~= old(out)@ + record_line(p0));
    }
}

/// The low sixteen bits of `start + o`.
fn low16(start: u32, o: usize) -> (r: u32)
    ensures
        r as int == (start + o) % 0x10000,
{
    let a = (start as u64) % 0x10000;
    let b = (o as u64) % 0x10000;
    proof {
        vstd::arithmetic::div_mod::lemma_add_mod_noop(start as int, o as int, 0x10000);
    }
    ((a + b) % 0x10000) as u32
}

/// `start + o` reduced to 32 bits.
fn addr32(start: u32, o: usize) -> (r: u32)
    ensures
        r as int == (start + o) % 0x1_0000_0000,
{
    let b = (o as u64) % 0x1_0000_0000;
    proof {
        vstd::arithmetic::div_mod::lemma_add_mod_noop(start as int, o as int, 0x1_0000_0000);
        assert(start as int % 0x1_0000_0000 == start as int);
    }
    (((start as u64) + b) % 0x1_0000_0000) as u32
}

/// The image a HEX text denotes: scan the record lines, sort the
/// collected bytes by address, fill the gaps, and reverse each word
/// when little-endian order is asked for.
pub open spec fn hex_image(content: Seq<u8>, little: bool, fill: u8) -> Result<
    (u32, Seq<u8>),
    DecodeError,
> {
    match scan_lines(lines_of(content), 0, 0, 0, Seq::empty()) {
        Ok(pairs) => {
            let sorted = sort_pairs(pairs);
            let start: u32 = if sorted.len() == 0 {
                0
            } else {
                sorted[0].0
            };
            let dense = dense_of(sorted, fill);
            if little {
                if dense.len() % 4 != 0 {
                    Err(DecodeError::NotWordAligned)
                } else {
                    Ok((start, word_swap(dense)))
                }
            } else {
                Ok((start, dense))
            }
        },
        Err(e) => Err(e),
    }
}

/// A decoded memory image: a start address and dense byte contents.
#[derive(Debug)]
pub struct Payload {
    start_address: usize,
    bytes: Vec<u8>,
}

/// Computes the absolute address of one data byte.
fn compute_addr(ela: u16, esa: u16, base: u16, off: usize) -> (r: u32)
    requires
        off < 256,
    ensures
        r == abs_addr(ela, esa, base, off as int),
{
    ((ela as u32) << 16) | (16 * (esa as u32) + (base as u32) + (off as u32))
}

impl Payload {
    /// The address of the first byte.
    pub closed spec fn start_spec(&self) -> u32 {
        self.start_address as u32
    }

    /// The dense byte contents.
    pub closed spec fn bytes_spec(&self) -> Seq<u8> {
        self.bytes@
    }

    #[verifier::type_invariant]
    spec fn type_inv(&self) -> bool {
        self.start_address <= 0xFFFF_FFFF
    }

    /// Builds an image directly from a start address and contents.
    pub fn new(start_address: u32, bytes: Vec<u8>) -> (r: Payload)
        ensures
            r.start_spec() == start_address,
            r.bytes_spec() == bytes@,
    {
        Payload { start_address: start_address as usize, bytes }
    }

    /// The address of the first byte.
    pub fn start_address(&self) -> (r: u32)
        ensures
            r == self.start_spec(),
    {
        proof {
            use_type_invariant(self);
        }
        self.start_address as u32
    }

    /// A borrow of the dense byte contents.
    pub fn bytes(&self) -> (r: &Vec<u8>)
        ensures
            r@ == self.bytes_spec(),
    {
        &self.bytes
    }

    /// Decodes Intel-HEX record text into an image.
    ///
    /// Each line after its marker character must hex-decode to a record
    /// of at least five bytes that ends in its own checksum. Data
    /// records contribute addressed bytes, extended address records
    /// shift later addresses, an end-of-file record stops the scan, and
    /// unknown record types are ignored. The collected bytes are sorted
    /// by address, gaps are filled with `fill_value`, and with
    /// `little_endian` every word of the result is byte-reversed.
    pub fn from_hex(content: &[u8], little_endian: bool, fill_value: u8) -> (r: Result<
        Payload,
        DecodeError,
    >)
        ensures
            match r {
                Ok(p) => hex_image(content@, little_endian, fill_value) == Ok::<
                    (u32, Seq<u8>),
                    DecodeError,
                >((p.start_spec(), p.bytes_spec())),
                Err(e) => hex_image(content@, little_endian, fill_value) == Err::<
                    (u32, Seq<u8>),
                    DecodeError,
                >(e),
            },
    {
        let ls = split_lines(content);
        let ghost lsv = lines_of(content@);
        let mut mem: Vec<(u32, u8)> = Vec::new();
        let mut esa: u16 = 0;
        let mut ela: u16 = 0;
        let mut i: usize = 0;
        let mut stopped = false;
        while i < ls.len() && !stopped
            invariant
                lsv == lines_of(content@),
                ls.deep_view() == lsv,
                i <= lsv.len(),
                stopped ==> scan_lines(lsv, 0, 0, 0, Seq::empty()) == Ok::<
                    Seq<(u32, u8)>,
                    DecodeError,
                >(mem@),
                !stopped ==> scan_lines(lsv, 0, 0, 0, Seq::empty()) == scan_lines(
                    lsv,
                    i as int,
                    esa,
                    ela,
                    mem@,
                ),
            decreases lsv.len() - i,
        {
            let l: &Vec<u8> = &ls[i];
            proof {
                assert(lsv[i as int] == l@);
            }
            let ghost lspec = lsv[i as int];
            if l.len() < 1 {
                return Err(DecodeError::MalformedRecord { line: i });
            }
            let body = slice_subrange(l.as_slice(), 1, l.len());
            proof {
                assert(body@ =~= lspec.skip(1));
            }
            let b = match hex_decode_bytes(body) {
                Ok(b) => b,
                Err(_) => {
                    return Err(DecodeError::InvalidHex { line: i });
                },
            };
            proof {
                assert(b@ == hex_decode_val(lspec.skip(1)));
            }
            if b.len() < 5 {
                return Err(DecodeError::MalformedRecord { line: i });
            }
            let computed = hex_checksum(slice_subrange(b.as_slice(), 0, b.len() - 1));
            let included = b[b.len() - 1];
            proof {
                assert(b@.subrange(0, b@.len() - 1) =~= b@.drop_last());
                assert(included == b@.last());
            }
            if included != computed {
                return Err(
                    DecodeError::ChecksumMismatch { line: i, computed, included },
                );
            }
            let count = b[0] as usize;
            if count + 1 > b.len() {
                return Err(DecodeError::MalformedRecord { line: i });
            }
            let base: u16 = (b[1] as u16) * 256 + (b[2] as u16);
            let rtype = b[3];
            let payload = slice_subrange(b.as_slice(), b.len() - 1 - count, b.len() - 1);
            proof {
                assert(payload@ =~= b@.subrange(b@.len() - 1 - count, b@.len() - 1));
            }
            if rtype == 0 {
                let ghost acc0 = mem@;
                let ghost target = Seq::new(
                    count as nat,
                    |k: int| (abs_addr(ela, esa, base, k), payload@[k]),
                );
                let mut j: usize = 0;
                while j < count
                    invariant
                        j <= count,
                        count == payload@.len(),
                        count < 256,
                        mem@ == acc0 + target.take(j as int),
                        target == Seq::new(
                            count as nat,
                            |k: int| (abs_addr(ela, esa, base, k), payload@[k]),
                        ),
                    decreases count - j,
                {
                    let a = compute_addr(ela, esa, base, j);
                    mem.push((a, *slice_index_get(payload, j)));
                    proof {
                        assert(mem@ =~= acc0 + target.take(j + 1));
                    }
                    j += 1;
                }
                proof {
                    assert(target.take(count as int) =~= target);
                    assert(mem@ == acc0 + target);
                }
            } else if rtype == 1 {
                stopped = true;
            } else if rtype == 2 {
                if count != 2 {
                    return Err(DecodeError::SegmentAddressLength { line: i });
                }
                esa = (*slice_index_get(payload, 0) as u16) * 256 + (*slice_index_get(
                    payload,
                    1,
                ) as u16);
            } else if rtype == 4 {
                if count != 2 {
                    return Err(DecodeError::LinearAddressLength { line: i });
                }
                ela = (*slice_index_get(payload, 0) as u16) * 256 + (*slice_index_get(
                    payload,
                    1,
                ) as u16);
            }
            i += 1;
        }
        let ghost pairs = mem@;
        proof {
            assert(scan_lines(lsv, 0, 0, 0, Seq::empty()) == Ok::<Seq<(u32, u8)>, DecodeError>(
                pairs,
            ));
        }
        let sorted = sort_memory(&mem);
        let start: u32 = if sorted.len() == 0 {
            0
        } else {
            sorted[0].0
        };
        let mut dense: Vec<u8> = Vec::new();
        if sorted.len() > 0 {
            let mut prev: u32 = sorted[0].0;
            let mut k: usize = 0;
            proof {
                assert(sorted@.skip(0) =~= sorted@);
                assert(Seq::<u8>::empty() + fill_from(sorted@, prev, fill_value) =~= fill_from(
                    sorted@,
                    prev,
                    fill_value,
                ));
            }
            while k < sorted.len()
                invariant
                    k <= sorted@.len(),
                    pairs_sorted(sorted@),
                    sorted@.len() > 0,
                    prev == if k == 0 {
                        sorted@[0].0
                    } else {
                        sorted@[k - 1].0
                    },
                    dense@ + fill_from(sorted@.skip(k as int), prev, fill_value) == fill_from(
                        sorted@,
                        sorted@[0].0,
                        fill_value,
                    ),
                decreases sorted@.len() - k,
            {
                let (a, value) = sorted[k];
                proof {
                    assert(sorted@.skip(k as int)[0] == sorted@[k as int]);
                    assert(sorted@.skip(k as int).skip(1) =~= sorted@.skip(k + 1));
                    if k > 0 {
                        assert(pair_le(sorted@[k - 1], sorted@[k as int]));
                    }
                    assert(prev <= a);
                }
                let ghost dense0 = dense@;
                let gap: u32 = a - prev;
                if gap > 1 {
                    let mut c: u32 = 0;
                    while c < gap - 1
                        invariant
                            c <= gap - 1,
                            dense@ == dense0 + Seq::new(c as nat, |x: int| fill_value),
                        decreases gap - 1 - c,
                    {
                        dense.push(fill_value);
                        proof {
                            assert(dense@ =~= dense0 + Seq::new((c + 1) as nat, |x: int| fill_value));
                        }
                        c += 1;
                    }
                }
                proof {
                    assert(dense@ =~= dense0 + gap_fill(a - prev, fill_value));
                }
                dense.push(value);
                proof {
                    assert(dense@ =~= dense0 + gap_fill(a - prev, fill_value) + seq![value]);
                    assert(dense@ + fill_from(sorted@.skip(k + 1), a, fill_value) =~= dense0
                        + fill_from(sorted@.skip(k as int), prev, fill_value));
                }
                prev = a;
                k += 1;
            }
            proof {
                assert(sorted@.skip(sorted@.len() as int) =~= Seq::<(u32, u8)>::empty());
                assert(dense@ + Seq::<u8>::empty() =~= dense@);
                assert(dense@ == dense_of(sorted@, fill_value));
            }
        } else {
            proof {
                assert(dense@ =~= dense_of(sorted@, fill_value));
            }
        }
        if little_endian {
            if dense.len() % 4 != 0 {
                return Err(DecodeError::NotWordAligned);
            }
            let swapped = swap_words(dense.as_slice());
            Ok(Payload { start_address: start as usize, bytes: swapped })
        } else {
            Ok(Payload { start_address: start as usize, bytes: dense })
        }
    }

    /// Decodes VHX word-chunk text into an image. Every hex digit of
    /// the content counts and all other characters are ignored; the
    /// decoded bytes must form whole chunks of `chunk_size / 32`
    /// words, and each chunk's word order is reversed. The start
    /// address is the caller's, not derived from the content.
    #[verifier::rlimit(50)]
    pub fn from_vhx(content: &[u8], start_address: u32, chunk_size: usize) -> (r: Result<
        Payload,
        DecodeError,
    >)
        requires
            chunk_size == 64 || chunk_size == 128,
        ensures
            match r {
                Ok(p) => p.start_spec() == start_address && vhx_image(content@, chunk_size)
                    == Ok::<Seq<u8>, DecodeError>(p.bytes_spec()),
                Err(e) => vhx_image(content@, chunk_size) == Err::<Seq<u8>, DecodeError>(e),
            },
    {
        let mut digits: Vec<u8> = Vec::new();
        let mut i: usize = 0;
        proof {
            assert(content@.skip(0) =~= content@);
            assert(Seq::<u8>::empty() + hex_digits_of(content@) =~= hex_digits_of(content@));
        }
        while i < content.len()
            invariant
                i <= content@.len(),
                hex_digits_of(content@) == digits@ + hex_digits_of(content@.skip(i as int)),
            decreases content@.len() - i,
        {
            let b = *slice_index_get(content, i);
            proof {
                assert(content@.skip(i as int)[0] == content@[i as int]);
                assert(content@.skip(i as int).skip(1) =~= content@.skip(i + 1));
            }
            if (48 <= b && b <= 57) || (97 <= b && b <= 102) || (65 <= b && b <= 70) {
                let ghost d0 = digits@;
                digits.push(b);
                proof {
                    assert(digits@ + hex_digits_of(content@.skip(i + 1)) =~= d0 + (seq![b]
                        + hex_digits_of(content@.skip(i + 1))));
                }
            }
            i += 1;
        }
        proof {
            assert(content@.skip(content@.len() as int) =~= Seq::<u8>::empty());
            assert(digits@ + Seq::<u8>::empty() =~= digits@);
            assert(digits@ == hex_digits_of(content@));
            lemma_hex_digits_of_digits(content@);
        }
        let raw = match hex_decode_bytes(digits.as_slice()) {
            Ok(v) => v,
            Err(_) => {
                return Err(DecodeError::OddDigitCount);
            },
        };
        let w = chunk_size / 32;
        let cs = 4 * w;
        if raw.len() % cs != 0 {
            return Err(DecodeError::IncompleteChunk);
        }
        let ghost target = chunk_rev(raw@, w as int);
        let mut out: Vec<u8> = Vec::new();
        let mut c: usize = 0;
        proof {
            assert(out@ =~= target.take(0));
        }
        while c < raw.len()
            invariant
                c <= raw@.len(),
                c % cs == 0,
                raw@.len() as int % (cs as int) == 0,
                cs == 4 * w,
                w == 2 || w == 4,
                target == chunk_rev(raw@, w as int),
                out@ == target.take(c as int),
            decreases raw@.len() - c,
    {
            proof {
                lemma_next_chunk(raw@.len() as int, cs as int, c as int);
                lemma_chunk_rev_chunk(raw@, w as int, c as int);
            }
            let ch = rev_chunk(raw.as_slice(), c, cs);
            out.extend_from_slice(ch.as_slice());
            proof {
                lemma_divmod(cs as int, 4, w as int, 0);
                assert(out@ =~= target.take(c + cs));
                assert((c + cs) as int % (cs as int) == 0) by (nonlinear_arith)
                    requires
                        c as int % (cs as int) == 0,
                        0 < cs as int,
                ;
            }
            c += cs;
        }
        proof {
            assert(target.take(raw@.len() as int) =~= target);
        }
        Ok(Payload { start_address: start_address as usize, bytes: out })
    }

    /// Encodes the image as VHX text: one line per whole chunk of
    /// `chunk_size / 32` words, each line's words in descending
    /// significance; trailing bytes short of a chunk are dropped.
    pub fn write_vhx(&self, chunk_size: usize) -> (r: Vec<u8>)
        requires
            chunk_size == 64 || chunk_size == 128,
        ensures
            r@ == vhx_text(self.bytes_spec(), chunk_size as int / 32),
    {
        let w = chunk_size / 32;
        let cs = 4 * w;
        let ghost bs = self.bytes@;
        let mut out: Vec<u8> = Vec::new();
        let mut c: usize = 0;
        proof {
            assert(Seq::<u8>::empty() + vhx_text_from(bs, w as int, 0) =~= vhx_text_from(
                bs,
                w as int,
                0,
            ));
        }
        while self.bytes.len() - c >= cs
            invariant
                c <= bs.len(),
                cs == 4 * w,
                w == 2 || w == 4,
                bs == self.bytes@,
                out@ + vhx_text_from(bs, w as int, c as int) == vhx_text_from(bs, w as int, 0),
            decreases bs.len() - c,
        {
            let ch = rev_chunk(self.bytes.as_slice(), c, cs);
            let enc = hex_encode_lower_bytes(ch.as_slice());
            let ghost out0 = out@;
            out.extend_from_slice(enc.as_slice());
            out.push(10);
            proof {
                lemma_divmod(cs as int, 4, w as int, 0);
                assert(out@ =~= out0 + vhx_line(bs.subrange(c as int, c + cs), w as int));
                assert(out@ + vhx_text_from(bs, w as int, c + cs) =~= out0 + vhx_text_from(
                    bs,
                    w as int,
                    c as int,
                ));
            }
            c += cs;
        }
        proof {
            assert(out@ + Seq::<u8>::empty() =~= out@);
        }
        out
    }

    /// Encodes the image as Intel-HEX record text: one extended linear
    /// address record carrying the high sixteen bits of the start
    /// address, one data record per sixteen bytes with the low sixteen
    /// bits of its address (wrapping every 64 KiB), and an end-of-file
    /// record. With `little_endian` each whole data word is
    /// byte-reversed.
    pub fn write_hex(&self, little_endian: bool) -> (r: Vec<u8>)
        ensures
            r@ == hex_text(self.start_spec(), self.bytes_spec(), little_endian),
    {
        proof {
            use_type_invariant(self);
        }
        let start: u32 = self.start_address as u32;
        let ghost bs = self.bytes@;
        let mut out: Vec<u8> = Vec::new();
        let mut ext: Vec<u8> = Vec::new();
        ext.push(2);
        ext.push(0);
        ext.push(0);
        ext.push(4);
        ext.push((start >> 24) as u8);
        ext.push((start >> 16) as u8);
        proof {
            assert(ext@ =~= seq![2u8, 0u8, 0u8, 4u8, (start >> 24) as u8, (start >> 16) as u8]);
        }
        emit_record(&mut out, ext);
        proof {
            assert(out@ =~= ext_record(start));
            assert(out@ + data_records(start, bs, 0, little_endian) =~= ext_record(start)
                + data_records(start, bs, 0, little_endian));
        }
        let mut o: usize = 0;
        while o < self.bytes.len()
            invariant
                o <= bs.len(),
                bs == self.bytes@,
                out@ + data_records(start, bs, o as int, little_endian) == ext_record(start)
                    + data_records(start, bs, 0, little_endian),
            decreases bs.len() - o,
        {
            let end = if self.bytes.len() - o >= 16 {
                o + 16
            } else {
                self.bytes.len()
            };
            let glen = end - o;
            let al = low16(start, o);
            let mut rec: Vec<u8> = Vec::new();
            rec.push(glen as u8);
            rec.push((al / 256) as u8);
            rec.push((al % 256) as u8);
            rec.push(0u8);
            let ghost g = bs.subrange(o as int, end as int);
            let ghost hdr = rec@;
            proof {
                assert(hdr =~= seq![
                    g.len() as u8,
                    (((start + o) % 0x10000) / 256) as u8,
                    (((start + o) % 0x10000) % 256) as u8,
                    0u8,
                ]);
                assert(rec@ =~= hdr + g.take(0));
                assert(word_swap(g.take(0)) =~= g.take(0));
            }
            let nw = glen / 4;
            let mut t: usize = 0;
            while t < nw
                invariant
                    t <= nw,
                    nw == glen as int / 4,
                    glen == end - o,
                    o + glen <= bs.len(),
                    end == o + glen,
                    bs == self.bytes@,
                    g == bs.subrange(o as int, end as int),
                    g.len() == glen,
                    rec@ == hdr + (if little_endian {
                        word_swap(g.take(4 * t))
                    } else {
                        g.take(4 * t)
                    }),
                decreases nw - t,
            {
                proof {
                    lemma_divmod(4 * (t as int), 4, t as int, 0);
                    assert(4 * t + 4 <= glen) by {
                        lemma_divmod(4 * (nw as int), 4, nw as int, 0);
                        assert(t + 1 <= nw);
                        assert(4 * (t as int) + 4 <= 4 * (nw as int));
                        assert(4 * (nw as int) <= glen) by {
                            vstd::arithmetic::div_mod::lemma_fundamental_div_mod(glen as int, 4);
                        }
                    }
                }
                let wb = o + 4 * t;
                if little_endian {
                    rec.push(self.bytes[wb + 3]);
                    rec.push(self.bytes[wb + 2]);
                    rec.push(self.bytes[wb + 1]);
                    rec.push(self.bytes[wb]);
                    proof {
                        lemma_word_swap_step(g, t as int);
                        assert(g[4 * (t as int) + 3] == bs[wb + 3]);
                        assert(g[4 * (t as int) + 2] == bs[wb + 2]);
                        assert(g[4 * (t as int) + 1] == bs[wb + 1]);
                        assert(g[4 * (t as int)] == bs[wb as int]);
                        assert(rec@ =~= hdr + word_swap(g.take(4 * (t + 1))));
                    }
                } else {
                    rec.push(self.bytes[wb]);
                    rec.push(self.bytes[wb + 1]);
                    rec.push(self.bytes[wb + 2]);
                    rec.push(self.bytes[wb + 3]);
                    proof {
                        assert(rec@ =~= hdr + g.take(4 * (t + 1)));
                    }
                }
                t += 1;
            }
            proof {
                assert(4 * (t as int) == 4 * (glen as int / 4));
                assert(rec@ == hdr + group_payload(g, little_endian));
            }
            let ghost out0 = out@;
            emit_record(&mut out, rec);
            proof {
                assert(out0 + record_line(hdr + group_payload(g, little_endian)) =~= out0
                    + data_record(start, bs, o as int, little_endian));
                assert(out@ == out0 + data_record(start, bs, o as int, little_endian));
                if end < bs.len() {
                    assert(out@ + data_records(start, bs, end as int, little_endian) =~= out0
                        + data_records(start, bs, o as int, little_endian));
                } else {
                    assert(data_records(start, bs, end as int, little_endian)
                        =~= Seq::<u8>::empty());
                    assert(data_records(start, bs, o as int + 16, little_endian)
                        =~= Seq::<u8>::empty());
                    assert(out@ + data_records(start, bs, end as int, little_endian) =~= out0
                        + data_records(start, bs, o as int, little_endian));
                }
            }
            o = end;
        }
        proof {
            assert(data_records(start, bs, o as int, little_endian) =~= Seq::<u8>::empty());
            assert(out@ =~= ext_record(start) + data_records(start, bs, 0, little_endian));
        }
        let mut eof: Vec<u8> = Vec::new();
        eof.push(0);
        eof.push(0);
        eof.push(0);
        eof.push(1);
        proof {
            assert(eof@ =~= seq![0u8, 0u8, 0u8, 1u8]);
        }
        emit_record(&mut out, eof);
        proof {
            assert(out@ =~= hex_text(start, bs, little_endian));
        }
        out
    }

    /// Renders the image as an address-annotated hex dump: four words
    /// per row, the row's address leading; trailing bytes short of a
    /// whole word are not shown.
    #[verifier::rlimit(100)]
    pub fn render(&self) -> (r: Vec<u8>)
        ensures
            r@ == render_text(self.start_spec(), self.bytes_spec()),
    {
        proof {
            use_type_invariant(self);
        }
        let start: u32 = self.start_address as u32;
        let ghost bs = self.bytes@;
        let wlen = 4 * (self.bytes.len() / 4);
        let ghost wb = bs.take(wlen as int);
        proof {
            lemma_divmod(4 * ((bs.len() / 4) as int), 4, (bs.len() / 4) as int, 0);
            assert(4 * (bs.len() as int / 4) <= bs.len()) by {
                vstd::arithmetic::div_mod::lemma_fundamental_div_mod(bs.len() as int, 4);
            }
            assert(wlen as int == 4 * (bs.len() as int / 4));
        }
        let mut out: Vec<u8> = Vec::new();
        let mut o: usize = 0;
        proof {
            assert(Seq::<u8>::empty() + render_rows(start, wb, 0) =~= render_rows(start, wb, 0));
        }
        while o < wlen
            invariant
                o <= wlen,
                wlen <= bs.len(),
                o % 4 == 0,
                wlen as int % 4 == 0,
                bs == self.bytes@,
                wb == bs.take(wlen as int),
                out@ + render_rows(start, wb, o as int) == render_rows(start, wb, 0),
            decreases wlen - o,
        {
            let end = if wlen - o >= 16 {
                o + 16
            } else {
                wlen
            };
            let ghost out0 = out@;
            proof {
                lemma_next_chunk(wlen as int, 4, o as int);
            }
            let row = row_text(&self.bytes, start, o, end);
            out.extend_from_slice(row.as_slice());
            proof {
                assert(wb.subrange(o as int, end as int) =~= bs.subrange(o as int, end as int));
                assert(out@ =~= out0 + row@);
                lemma_render_step(start, wb, o as int, end as int, row@, out0, out@);
            }
            o = end;
        }
        proof {
            reveal_with_fuel(render_rows, 1);
            assert(render_rows(start, wb, o as int) =~= Seq::<u8>::empty());
            assert(out@ + Seq::<u8>::empty() =~= out@);
        }
        out
    }
}

/// One row followed by the later rows is the rows from `o` on.
proof fn lemma_render_step(start: u32, wb: Seq<u8>, o: int, end: int, row: Seq<u8>, pre: Seq<u8>, cur: Seq<u8>)
    requires
        0 <= o < wb.len(),
        end == if o + 16 <= wb.len() {
            o + 16
        } else {
            wb.len() as int
        },
        row == hex_lower(be32((start + o) % 0x1_0000_0000)) + seq![58u8, 32u8] + row_words(
            wb.subrange(o, end),
        ) + seq![10u8],
        cur == pre + row,
    ensures
        cur + render_rows(start, wb, end) == pre + render_rows(start, wb, o),
{
    reveal_with_fuel(render_rows, 2);
    if o + 16 <= wb.len() {
        assert(cur + render_rows(start, wb, end) =~= pre + render_rows(start, wb, o));
    } else {
        assert(render_rows(start, wb, o + 16) =~= Seq::<u8>::empty());
        assert(render_rows(start, wb, end) =~= Seq::<u8>::empty());
        assert(cur + render_rows(start, wb, end) =~= pre + render_rows(start, wb, o));
    }
}

/// Builds one display row for the bytes in `o .. end`.
fn row_text(bytes: &Vec<u8>, start: u32, o: usize, end: usize) -> (r: Vec<u8>)
    requires
        o + 4 <= end,
        end <= bytes@.len(),
        (end - o) % 4 == 0,
        end - o <= 16,
    ensures
        r@ == hex_lower(be32((start + o) % 0x1_0000_0000)) + seq![58u8, 32u8] + row_words(
            bytes@.subrange(o as int, end as int),
        ) + seq![10u8],
{
    let ghost bs = bytes@;
    let ghost g = bs.subrange(o as int, end as int);
    let glen = end - o;
    let a = addr32(start, o);
    let mut ab: Vec<u8> = Vec::new();
    ab.push((a / 0x1000000) as u8);
    ab.push(((a / 0x10000) % 256) as u8);
    ab.push(((a / 256) % 256) as u8);
    ab.push((a % 256) as u8);
    proof {
        assert(ab@ =~= be32((start + o) % 0x1_0000_0000));
    }
    let mut out: Vec<u8> = Vec::new();
    let enc = hex_encode_lower_bytes(ab.as_slice());
    out.extend_from_slice(enc.as_slice());
    out.push(58);
    out.push(32);
    let ghost head = out@;
    let w0 = hex_encode_lower_bytes(slice_subrange(bytes.as_slice(), o, o + 4));
    out.extend_from_slice(w0.as_slice());
    proof {
        assert(bs.subrange(o as int, o + 4) =~= g.take(4));
        assert(g.take(4).len() == 4);
        assert(out@ =~= head + row_words(g.take(4)));
    }
    let nw = glen / 4;
    let mut t: usize = 1;
    while t < nw
        invariant
            1 <= t <= nw,
            nw == glen as int / 4,
            glen == end - o,
            4 <= glen <= 16,
            glen as int % 4 == 0,
            end == o + glen,
            end <= bs.len(),
            bs == bytes@,
            g == bs.subrange(o as int, end as int),
            g.len() == glen,
            out@ == head + row_words(g.take(4 * t)),
        decreases nw - t,
    {
        proof {
            lemma_divmod(glen as int, 4, nw as int, 0);
            assert(4 * t + 4 <= glen);
        }
        out.push(32);
        let wt = hex_encode_lower_bytes(
            slice_subrange(bytes.as_slice(), o + 4 * t, o + 4 * t + 4),
        );
        out.extend_from_slice(wt.as_slice());
        proof {
            let tt = t as int;
            assert(g.take(4 * (tt + 1)).take(4 * tt) =~= g.take(4 * tt));
            assert(g.take(4 * (tt + 1)).skip(4 * tt) =~= bs.subrange(o + 4 * tt, o + 4 * tt + 4));
            assert(out@ =~= head + row_words(g.take(4 * (tt + 1))));
        }
        t += 1;
    }
    out.push(10);
    proof {
        lemma_divmod(glen as int, 4, nw as int, 0);
        assert(g.take(4 * (nw as int)) =~= g);
        assert(out@ =~= head + row_words(g) + seq![10u8]);
    }
    out
}

} // verus!
