//! Laws of the codec, each proved once and for all: emitted records
//! carry their own checksum, an end-of-file record makes later lines
//! irrelevant, and a VHX encoding decodes back to the image it came
//! from.

use vstd::multiset::Multiset;
use vstd::prelude::*;

use crate::checksum::checksum_spec;
use crate::hexdigits::hex_decode_ok;
use crate::hexdigits::hex_decode_val;
use crate::hexdigits::hex_lower;
use crate::hexdigits::is_hex_digit;
use crate::hexdigits::lemma_decode_of_lower;
use crate::hexdigits::lemma_decode_of_upper;
use crate::payload::chunk_rev;
use crate::payload::hex_digits_of;
use crate::payload::record_line;
use crate::payload::scan_lines;
use crate::payload::vhx_image;
use crate::payload::vhx_line;
use crate::payload::vhx_text;
use crate::payload::vhx_text_from;
use crate::payload::group_payload;
use crate::payload::word_swap;
use crate::payload::lemma_word_swap_involution;
use crate::payload::DecodeError;

verus! {

/// Every emitted record line carries its own checksum: the line's hex
/// digits decode to the record's payload followed by exactly the
/// checksum of that payload.
pub proof fn lemma_record_checksum(p: Seq<u8>)
    ensures
        ({
            let line = record_line(p);
            let body = line.subrange(1, line.len() - 1);
            hex_decode_ok(body) && hex_decode_val(body) == p.push(checksum_spec(p))
                && hex_decode_val(body).last() == checksum_spec(
                hex_decode_val(body).drop_last(),
            )
        }),
{
    let rec = p.push(checksum_spec(p));
    lemma_decode_of_upper(rec);
    let line = record_line(p);
    assert(line.subrange(1, line.len() - 1) =~= crate::hexdigits::hex_upper(rec));
    assert(rec.drop_last() =~= p);
}

/// Whether a record line ends the scan on its own: it is malformed in
/// some way, or it is a well-formed end-of-file record.
pub open spec fn line_stops(l: Seq<u8>) -> bool {
    if l.len() < 1 || !hex_decode_ok(l.skip(1)) {
        true
    } else {
        let b = hex_decode_val(l.skip(1));
        if b.len() < 5 {
            true
        } else if b.last() != checksum_spec(b.drop_last()) {
            true
        } else if b[0] as int + 1 > b.len() {
            true
        } else if b[3] == 1 {
            true
        } else if (b[3] == 2 || b[3] == 4) && b[0] != 2 {
            true
        } else {
            false
        }
    }
}

/// An end-of-file record truncates processing: once a line that ends
/// the scan stands at index `j`, every line after `j` is ignored —
/// the scan of the whole sequence equals the scan of the lines up to
/// and including `j`.
pub proof fn lemma_eof_truncates(
    ls: Seq<Seq<u8>>,
    j: int,
    i: int,
    esa: u16,
    ela: u16,
    acc: Seq<(u32, u8)>,
)
    requires
        0 <= i <= j < ls.len(),
        line_stops(ls[j]),
    ensures
        scan_lines(ls, i, esa, ela, acc) == scan_lines(ls.take(j + 1), i, esa, ela, acc),
    decreases j - i,
{
    let short = ls.take(j + 1);
    assert(short[i] == ls[i]);
    let l = ls[i];
    if i == j {
        assert(scan_lines(ls, i, esa, ela, acc) == scan_lines(short, i, esa, ela, acc));
    } else {
        if l.len() < 1 || !hex_decode_ok(l.skip(1)) {
        } else {
            let b = hex_decode_val(l.skip(1));
            if b.len() < 5 {
            } else if b.last() != checksum_spec(b.drop_last()) {
            } else {
                let count = b[0] as int;
                if count + 1 > b.len() {
                } else {
                    let base = (b[1] * 256 + b[2]) as u16;
                    let payload = b.subrange(b.len() - 1 - count, b.len() - 1);
                    if b[3] == 0 {
                        let acc2 = acc + Seq::new(
                            count as nat,
                            |k: int| (crate::payload::abs_addr(ela, esa, base, k), payload[k]),
                        );
                        lemma_eof_truncates(ls, j, i + 1, esa, ela, acc2);
                    } else if b[3] == 1 {
                    } else if b[3] == 2 {
                        if count == 2 {
                            lemma_eof_truncates(
                                ls,
                                j,
                                i + 1,
                                (payload[0] * 256 + payload[1]) as u16,
                                ela,
                                acc,
                            );
                        }
                    } else if b[3] == 4 {
                        if count == 2 {
                            lemma_eof_truncates(
                                ls,
                                j,
                                i + 1,
                                esa,
                                (payload[0] * 256 + payload[1]) as u16,
                                acc,
                            );
                        }
                    } else {
                        lemma_eof_truncates(ls, j, i + 1, esa, ela, acc);
                    }
                }
            }
        }
    }
}

/// Flipping any single bit of a byte changes the byte.
pub proof fn lemma_bit_flip_changes(y: u8, k: u8)
    requires
        k < 8,
    ensures
        y ^ (1u8 << k) != y,
{
    assert(y ^ (1u8 << k) != y) by (bit_vector)
        requires
            k < 8,
    ;
}

/// A corrupted record never passes: changing any summed byte of a
/// record whose checksum byte closes it makes the check fail.
pub proof fn lemma_corrupted_record_fails(b: Seq<u8>, i: int, x: u8)
    requires
        b.len() >= 1,
        0 <= i < b.len() - 1,
        x != b[i],
        b.last() == checksum_spec(b.drop_last()),
    ensures
        ({
            let c = b.update(i, x);
            c.last() != checksum_spec(c.drop_last())
        }),
{
    let c = b.update(i, x);
    assert(c.drop_last() =~= b.drop_last().update(i, x));
    crate::checksum::lemma_checksum_detects_change(b.drop_last(), i, x);
    assert(c.last() == b.last());
}

/// Inserting a pair adds exactly that pair to the contents.
proof fn lemma_insert_pair_multiset(s: Seq<(u32, u8)>, p: (u32, u8))
    ensures
        crate::payload::insert_pair(s, p).to_multiset() == s.to_multiset().insert(p),
    decreases s.len(),
{
    broadcast use vstd::seq_lib::group_to_multiset_ensures;

    if s.len() == 0 {
        assert(seq![p] =~= Seq::<(u32, u8)>::empty().push(p));
        assert(s.to_multiset() =~= Multiset::<(u32, u8)>::empty());
        assert(seq![p].to_multiset() =~= s.to_multiset().insert(p));
    } else if crate::payload::pair_le(s.last(), p) {
    } else {
        let dl = s.drop_last();
        lemma_insert_pair_multiset(dl, p);
        assert(s =~= dl.push(s.last()));
        assert(dl.to_multiset().insert(p).insert(s.last()) =~= dl.to_multiset().insert(
            s.last(),
        ).insert(p));
        assert(crate::payload::insert_pair(s, p).to_multiset() =~= s.to_multiset().insert(p));
    }
}

/// Sorting loses nothing and invents nothing: the sorted pairs are a
/// permutation of the collected pairs.
pub proof fn lemma_sort_pairs_permutes(s: Seq<(u32, u8)>)
    ensures
        crate::payload::sort_pairs(s).to_multiset() == s.to_multiset(),
    decreases s.len(),
{
    broadcast use vstd::seq_lib::group_to_multiset_ensures;

    if s.len() > 0 {
        let dl = s.drop_last();
        lemma_sort_pairs_permutes(dl);
        lemma_insert_pair_multiset(crate::payload::sort_pairs(dl), s.last());
        assert(s =~= dl.push(s.last()));
    }
}

/// The digit filter distributes over concatenation.
proof fn lemma_digits_concat(a: Seq<u8>, b: Seq<u8>)
    ensures
        hex_digits_of(a + b) == hex_digits_of(a) + hex_digits_of(b),
    decreases a.len(),
{
    if a.len() == 0 {
        assert(a + b =~= b);
        assert(hex_digits_of(a) + hex_digits_of(b) =~= hex_digits_of(b));
    } else {
        assert((a + b)[0] == a[0]);
        assert((a + b).skip(1) =~= a.skip(1) + b);
        lemma_digits_concat(a.skip(1), b);
        if is_hex_digit(a[0]) {
            assert(seq![a[0]] + (hex_digits_of(a.skip(1)) + hex_digits_of(b)) =~= (seq![a[0]]
                + hex_digits_of(a.skip(1))) + hex_digits_of(b));
        }
    }
}

/// The digit filter keeps a stream of digits whole.
proof fn lemma_digits_all(a: Seq<u8>)
    requires
        forall|i: int| 0 <= i < a.len() ==> is_hex_digit(a[i]),
    ensures
        hex_digits_of(a) == a,
    decreases a.len(),
{
    if a.len() > 0 {
        assert(is_hex_digit(a[0]));
        lemma_digits_all(a.skip(1));
        assert(seq![a[0]] + a.skip(1) =~= a);
    }
}

/// Every byte of a lowercase hex encoding is a hex digit.
proof fn lemma_hex_lower_digits(x: Seq<u8>)
    ensures
        forall|i: int| 0 <= i < hex_lower(x).len() ==> is_hex_digit(hex_lower(x)[i]),
{
    assert forall|i: int| 0 <= i < hex_lower(x).len() implies is_hex_digit(hex_lower(x)[i]) by {
        assert(0 <= x[i / 2] < 256);
    }
}

/// Lowercase hex encoding distributes over concatenation.
proof fn lemma_hex_lower_concat(a: Seq<u8>, b: Seq<u8>)
    ensures
        hex_lower(a + b) == hex_lower(a) + hex_lower(b),
{
    let lhs = hex_lower(a + b);
    let rhs = hex_lower(a) + hex_lower(b);
    assert forall|i: int| 0 <= i < lhs.len() implies lhs[i] == rhs[i] by {
        if i < 2 * a.len() {
            assert(i / 2 < a.len());
            assert((a + b)[i / 2] == a[i / 2]);
        } else {
            let t = i - 2 * a.len();
            assert(i / 2 == a.len() + t / 2 && i % 2 == t % 2) by {
                crate::payload::lemma_divmod(i, 2, a.len() as int + t / 2, t % 2);
            }
            assert((a + b)[a.len() + t / 2] == b[t / 2]);
        }
    }
    assert(lhs =~= rhs);
}

/// Chunk reversal splits at the first chunk boundary.
#[verifier::spinoff_prover]
proof fn lemma_chunk_rev_split(x: Seq<u8>, w: int)
    requires
        1 <= w,
        4 * w <= x.len(),
        x.len() as int % (4 * w) == 0,
    ensures
        chunk_rev(x, w) == chunk_rev(x.take(4 * w), w) + chunk_rev(x.skip(4 * w), w),
{
    let cs = 4 * w;
    let lhs = chunk_rev(x, w);
    let rhs = chunk_rev(x.take(cs), w) + chunk_rev(x.skip(cs), w);
    crate::payload::lemma_chunk_rev_chunk(x, w, 0);
    assert(x.subrange(0, cs) =~= x.take(cs));
    assert forall|i: int| 0 <= i < x.len() implies lhs[i] == rhs[i] by {
        if i < cs {
            assert(lhs[i] == chunk_rev(x, w).subrange(0, cs)[i]);
        } else {
            let t = i - cs;
            let tail = x.skip(cs);
            vstd::arithmetic::div_mod::lemma_fundamental_div_mod(t, cs);
            assert(i == (1 + t / cs) * cs + t % cs) by (nonlinear_arith)
                requires
                    t == cs * (t / cs) + t % cs,
                    i == cs + t,
            ;
            crate::payload::lemma_divmod(i, cs, 1 + t / cs, t % cs);
            let r = t % cs;
            let inner = (cs - 4 - 4 * (r / 4)) + r % 4;
            crate::payload::lemma_divmod(r, 4, r / 4, r % 4);
            assert(0 <= inner < cs) by {
                assert(4 * (r / 4) <= r);
            }
            assert(lhs[i] == x[(1 + t / cs) * cs + inner]);
            assert(rhs[i] == tail[(t / cs) * cs + inner]);
            assert((1 + t / cs) * cs == cs + (t / cs) * cs) by (nonlinear_arith);
            assert(0 <= (t / cs) * cs) by (nonlinear_arith)
                requires
                    0 <= t / cs,
                    0 < cs,
            ;
            assert((1 + t / cs) * cs + inner < x.len()) by {
                vstd::arithmetic::div_mod::lemma_fundamental_div_mod(x.len() as int, cs);
                assert(x.len() as int == (x.len() as int / cs) * cs) by (nonlinear_arith)
                    requires
                        x.len() as int == cs * (x.len() as int / cs) + x.len() as int % cs,
                        x.len() as int % cs == 0,
                ;
                let c1 = 1 + t / cs;
                assert(c1 * cs <= i);
                assert(c1 < x.len() as int / cs) by (nonlinear_arith)
                    requires
                        c1 * cs < (x.len() as int / cs) * cs,
                        0 < cs,
                ;
                assert((c1 + 1) * cs <= (x.len() as int / cs) * cs) by (nonlinear_arith)
                    requires
                        c1 < x.len() as int / cs,
                        0 < cs,
                ;
                assert((c1 + 1) * cs == c1 * cs + cs) by (nonlinear_arith);
            }
            assert(tail[(t / cs) * cs + inner] == x[cs + (t / cs) * cs + inner]);
        }
    }
    assert(lhs =~= rhs);
}

/// Chunk reversal is an involution on whole chunks.
#[verifier::spinoff_prover]
pub proof fn lemma_chunk_rev_involution(x: Seq<u8>, w: int)
    requires
        1 <= w,
        x.len() as int % (4 * w) == 0,
    ensures
        chunk_rev(chunk_rev(x, w), w) == x,
{
    let cs = 4 * w;
    let y = chunk_rev(x, w);
    let d = chunk_rev(y, w);
    assert forall|i: int| 0 <= i < x.len() implies d[i] == x[i] by {
        let c = i / cs;
        let r = i % cs;
        let wi = r / 4;
        let t = r % 4;
        vstd::arithmetic::div_mod::lemma_fundamental_div_mod(i, cs);
        crate::payload::lemma_divmod(r, 4, wi, t);
        let j = c * cs + (cs - 4 - 4 * wi) + t;
        assert(d[i] == y[j]);
        assert(0 <= cs - 4 - 4 * wi + t < cs) by {
            assert(4 * wi <= r);
        }
        assert(j == c * cs + (cs - 4 - 4 * wi + t));
        crate::payload::lemma_divmod(j, cs, c, cs - 4 - 4 * wi + t);
        crate::payload::lemma_divmod(cs - 4 - 4 * wi + t, 4, w - 1 - wi, t);
        assert(j < x.len()) by {
            vstd::arithmetic::div_mod::lemma_fundamental_div_mod(x.len() as int, cs);
            assert(x.len() as int == (x.len() as int / cs) * cs) by (nonlinear_arith)
                requires
                    x.len() as int == cs * (x.len() as int / cs) + x.len() as int % cs,
                    x.len() as int % cs == 0,
            ;
            assert(c * cs <= i) by (nonlinear_arith)
                requires
                    i == cs * c + r,
                    0 <= r,
            ;
            assert(c < x.len() as int / cs) by (nonlinear_arith)
                requires
                    c * cs < (x.len() as int / cs) * cs,
                    0 < cs,
            ;
            assert((c + 1) * cs <= (x.len() as int / cs) * cs) by (nonlinear_arith)
                requires
                    c < x.len() as int / cs,
                    0 < cs,
            ;
            assert((c + 1) * cs == c * cs + cs) by (nonlinear_arith);
        }
        assert(y[j] == x[(j / cs) * cs + (cs - 4 - 4 * ((j % cs) / 4)) + (j % cs) % 4]);
        assert(cs - 4 - 4 * (w - 1 - wi) == 4 * wi);
        assert((j / cs) * cs == c * cs);
        assert(y[j] == x[c * cs + 4 * wi + t]);
        assert(c * cs + 4 * wi + t == i);
    }
    assert(d =~= x);
}

/// The hex digits of a VHX text from offset `o` on are the lowercase
/// encoding of the chunk-reversed bytes from `o` on.
#[verifier::spinoff_prover]
proof fn lemma_vhx_digits_from(s: Seq<u8>, w: int, o: int)
    requires
        1 <= w,
        s.len() as int % (4 * w) == 0,
        0 <= o <= s.len(),
        o % (4 * w) == 0,
    ensures
        hex_digits_of(vhx_text_from(s, w, o)) == hex_lower(chunk_rev(s.skip(o), w)),
    decreases s.len() - o,
{
    let cs = 4 * w;
    if o == s.len() {
        assert(s.skip(o) =~= Seq::<u8>::empty());
        assert(chunk_rev(Seq::<u8>::empty(), w) =~= Seq::<u8>::empty());
        assert(hex_lower(Seq::<u8>::empty()) =~= Seq::<u8>::empty());
        assert(hex_digits_of(vhx_text_from(s, w, o)) =~= Seq::<u8>::empty());
    } else {
        crate::payload::lemma_next_chunk(s.len() as int, cs, o);
        let ch = s.subrange(o, o + cs);
        let line = vhx_line(ch, w);
        let rest = vhx_text_from(s, w, o + cs);
        assert(vhx_text_from(s, w, o) == line + rest);
        lemma_digits_concat(line, rest);
        lemma_digits_concat(hex_lower(chunk_rev(ch, w)), seq![10u8]);
        assert(line =~= hex_lower(chunk_rev(ch, w)) + seq![10u8]);
        lemma_hex_lower_digits(chunk_rev(ch, w));
        lemma_digits_all(hex_lower(chunk_rev(ch, w)));
        assert(seq![10u8].skip(1) =~= Seq::<u8>::empty());
        assert(!is_hex_digit(10u8));
        assert(hex_digits_of(Seq::<u8>::empty()) =~= Seq::<u8>::empty());
        assert(hex_digits_of(seq![10u8]) =~= Seq::<u8>::empty());
        assert((o + cs) % cs == 0) by (nonlinear_arith)
            requires
                o % cs == 0,
                0 < cs,
        ;
        lemma_vhx_digits_from(s, w, o + cs);
        assert(s.skip(o).len() as int % cs == 0) by {
            vstd::arithmetic::div_mod::lemma_sub_mod_noop(s.len() as int, o, cs);
            vstd::arithmetic::div_mod::lemma_small_mod(0, cs as nat);
        }
        lemma_chunk_rev_split(s.skip(o), w);
        assert(s.skip(o).take(cs) =~= ch);
        assert(s.skip(o).skip(cs) =~= s.skip(o + cs));
        lemma_hex_lower_concat(chunk_rev(ch, w), chunk_rev(s.skip(o + cs), w));
        assert(hex_digits_of(line) =~= hex_lower(chunk_rev(ch, w)));
        assert(hex_digits_of(vhx_text_from(s, w, o)) =~= hex_lower(chunk_rev(ch, w)) + hex_lower(
            chunk_rev(s.skip(o + cs), w),
        ));
        assert(chunk_rev(s.skip(o), w) == chunk_rev(ch, w) + chunk_rev(s.skip(o + cs), w));
        assert(hex_digits_of(vhx_text_from(s, w, o)) =~= hex_lower(chunk_rev(s.skip(o), w)));
    }
}

/// Round trip: a VHX encoding of a whole-chunk image decodes back to
/// exactly that image, with the same chunk size.
pub proof fn lemma_vhx_round_trip(bytes: Seq<u8>, chunk_bits: usize)
    requires
        chunk_bits == 64 || chunk_bits == 128,
        bytes.len() as int % (4 * (chunk_bits as int / 32)) == 0,
    ensures
        vhx_image(vhx_text(bytes, chunk_bits as int / 32), chunk_bits) == Ok::<
            Seq<u8>,
            DecodeError,
        >(bytes),
{
    let w = chunk_bits as int / 32;
    lemma_vhx_digits_from(bytes, w, 0);
    assert(bytes.skip(0) =~= bytes);
    let digits = hex_digits_of(vhx_text(bytes, w));
    assert(digits == hex_lower(chunk_rev(bytes, w)));
    lemma_decode_of_lower(chunk_rev(bytes, w));
    assert(digits.len() % 2 == 0);
    assert(hex_decode_val(digits) == chunk_rev(bytes, w));
    lemma_chunk_rev_involution(bytes, w);
}

/// The data bytes of the records from byte offset `o` on,
/// concatenated in emission order.
pub open spec fn payload_stream(bytes: Seq<u8>, little: bool, o: int) -> Seq<u8>
    decreases bytes.len() + 16 - o
    when 0 <= o <= bytes.len() + 16
{
    if o >= bytes.len() {
        Seq::empty()
    } else {
        let end = if o + 16 <= bytes.len() {
            o + 16
        } else {
            bytes.len() as int
        };
        group_payload(bytes.subrange(o, end), little) + payload_stream(bytes, little, o + 16)
    }
}

/// The word swap splits at any word boundary.
#[verifier::spinoff_prover]
proof fn lemma_word_swap_split(x: Seq<u8>, s: int)
    requires
        0 <= s <= x.len(),
        s % 4 == 0,
        x.len() as int % 4 == 0,
    ensures
        word_swap(x) == word_swap(x.take(s)) + word_swap(x.skip(s)),
{
    let lhs = word_swap(x);
    let rhs = word_swap(x.take(s)) + word_swap(x.skip(s));
    assert forall|i: int| 0 <= i < x.len() implies lhs[i] == rhs[i] by {
        if i < s {
            assert(4 * (i / 4) + 3 < s) by {
                crate::payload::lemma_divmod(i, 4, i / 4, i % 4);
                assert(i / 4 < s / 4);
                assert(4 * (i / 4) + 4 <= 4 * (s / 4));
                assert(4 * (s / 4) == s);
            }
            assert(x.take(s)[4 * (i / 4) + 3 - (i % 4)] == x[4 * (i / 4) + 3 - (i % 4)]);
        } else {
            let t = i - s;
            assert(i / 4 == s / 4 + t / 4 && i % 4 == t % 4) by {
                crate::payload::lemma_divmod(t, 4, t / 4, t % 4);
                crate::payload::lemma_divmod(i, 4, s / 4 + t / 4, t % 4);
            }
            assert(4 * (i / 4) == s + 4 * (t / 4)) by {
                assert(4 * (s / 4) == s);
            }
            assert(x.skip(s)[4 * (t / 4) + 3 - (t % 4)] == x[s + 4 * (t / 4) + 3 - (t % 4)]);
        }
    }
    assert(lhs =~= rhs);
}

/// The payload stream from an aligned offset is the remaining bytes,
/// word-swapped when little-endian.
#[verifier::rlimit(100)]
#[verifier::spinoff_prover]
proof fn lemma_payload_stream_from(bytes: Seq<u8>, little: bool, o: int)
    requires
        bytes.len() as int % 4 == 0,
        0 <= o <= bytes.len(),
        o % 16 == 0,
    ensures
        payload_stream(bytes, little, o) == if little {
            word_swap(bytes.skip(o))
        } else {
            bytes.skip(o)
        },
    decreases bytes.len() - o,
{
    if o >= bytes.len() {
        assert(bytes.skip(o) =~= Seq::<u8>::empty());
        assert(word_swap(Seq::<u8>::empty()) =~= Seq::<u8>::empty());
    } else {
        let end = if o + 16 <= bytes.len() {
            o + 16
        } else {
            bytes.len() as int
        };
        let g = bytes.subrange(o, end);
        assert(g.len() as int % 4 == 0) by {
            vstd::arithmetic::div_mod::lemma_sub_mod_noop(end, o, 4);
            vstd::arithmetic::div_mod::lemma_small_mod(0, 4);
        }
        assert(g.take(4 * (g.len() as int / 4)) =~= g) by {
            crate::payload::lemma_divmod(g.len() as int, 4, g.len() as int / 4, 0);
        }
        if o + 16 <= bytes.len() {
            lemma_payload_stream_from(bytes, little, o + 16);
            assert(bytes.skip(o).len() as int % 4 == 0) by {
                vstd::arithmetic::div_mod::lemma_sub_mod_noop(bytes.len() as int, o, 4);
                vstd::arithmetic::div_mod::lemma_small_mod(0, 4);
            }
            lemma_word_swap_split(bytes.skip(o), 16);
            assert(bytes.skip(o).take(16) =~= g);
            assert(bytes.skip(o).skip(16) =~= bytes.skip(o + 16));
            if little {
                assert(payload_stream(bytes, little, o) =~= word_swap(bytes.skip(o)));
            } else {
                assert(payload_stream(bytes, little, o) =~= bytes.skip(o));
            }
        } else {
            assert(payload_stream(bytes, little, o + 16) =~= Seq::<u8>::empty());
            assert(g =~= bytes.skip(o));
            if little {
                assert(payload_stream(bytes, little, o) =~= word_swap(bytes.skip(o)));
            } else {
                assert(payload_stream(bytes, little, o) =~= bytes.skip(o));
            }
        }
    }
}

/// Round trip for the record encoder's data: on a word-aligned image
/// the concatenated data bytes of the emitted records are exactly the
/// image's bytes — word-reversed when little-endian, which one more
/// word swap (the decoder's) undoes.
pub proof fn lemma_hex_payload_round_trip(bytes: Seq<u8>, little: bool)
    requires
        bytes.len() as int % 4 == 0,
    ensures
        !little ==> payload_stream(bytes, little, 0) == bytes,
        little ==> payload_stream(bytes, little, 0) == word_swap(bytes),
        little ==> word_swap(payload_stream(bytes, little, 0)) == bytes,
{
    lemma_payload_stream_from(bytes, little, 0);
    assert(bytes.skip(0) =~= bytes);
    if little {
        lemma_word_swap_involution(bytes);
    }
}

} // verus!
