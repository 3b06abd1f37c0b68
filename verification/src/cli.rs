//! Validation of command-line values: numbers in decimal or
//! `0x`-prefixed hex, file types by extension, and chunk sizes.

use vstd::prelude::*;
use vstd::slice::slice_index_get;
use vstd::slice::slice_subrange;

use crate::hexdigits::hex_decode_bytes;
use crate::hexdigits::hex_decode_ok;
use crate::hexdigits::hex_decode_val;

verus! {

/// Why a command-line value was rejected.
#[derive(Debug, Clone, Copy, PartialEq, Eq)]
pub enum CliError {
    /// A `0x`-prefixed value whose digits are not an even hex string.
    NotHexNumber,
    /// A decimal value with a non-digit, empty, or too large to hold.
    NotNumber,
    /// A path without a file extension.
    NoExtension,
    /// A file extension outside the supported set.
    UnsupportedType,
    /// A chunk size that does not parse as a number.
    NotChunkSize,
    /// A chunk size other than 64 or 128.
    BadChunkSize,
}

/// Whether a byte is an ASCII decimal digit.
pub open spec fn is_dec_digit(b: u8) -> bool {
    48 <= b <= 57
}

/// Whether a stream is one or more decimal digits.
pub open spec fn all_dec_digits(s: Seq<u8>) -> bool {
    s.len() > 0 && (forall|i: int| 0 <= i < s.len() ==> is_dec_digit(s[i]))
}

/// The number a decimal digit stream denotes.
pub open spec fn dec_val(s: Seq<u8>) -> int
    decreases s.len(),
{
    if s.len() == 0 {
        0
    } else {
        dec_val(s.drop_last()) * 10 + (s.last() - 48)
    }
}

/// The number a big-endian byte stream denotes.
pub open spec fn bytes_val(s: Seq<u8>) -> int
    decreases s.len(),
{
    if s.len() == 0 {
        0
    } else {
        bytes_val(s.drop_last()) * 256 + s.last()
    }
}

/// The value `legal_hex_or_decimal` accepts for a byte stream, if any:
/// a `0x` prefix demands an even hex string, whose value wraps at the
/// machine word; anything else demands decimal digits that fit.
pub open spec fn numeral_spec(s: Seq<u8>) -> Result<usize, CliError> {
    if s.len() >= 2 && s[0] == 48 && s[1] == 120 {
        if hex_decode_ok(s.skip(2)) {
            Ok((bytes_val(hex_decode_val(s.skip(2))) % (usize::MAX + 1)) as usize)
        } else {
            Err(CliError::NotHexNumber)
        }
    } else {
        if all_dec_digits(s) && dec_val(s) <= usize::MAX {
            Ok(dec_val(s) as usize)
        } else {
            Err(CliError::NotNumber)
        }
    }
}

/// Growing a digit prefix never shrinks its value.
proof fn lemma_dec_val_mono(s: Seq<u8>, i: int)
    requires
        0 <= i <= s.len(),
        forall|k: int| 0 <= k < s.len() ==> is_dec_digit(s[k]),
    ensures
        dec_val(s.take(i)) <= dec_val(s),
    decreases s.len() - i,
{
    if i < s.len() {
        lemma_dec_val_nonneg(s.take(i));
        assert(is_dec_digit(s[i]));
        assert(s.take(i + 1).drop_last() =~= s.take(i));
        assert(s.take(i + 1).last() == s[i]);
        assert(dec_val(s.take(i)) <= dec_val(s.take(i + 1)));
        lemma_dec_val_mono(s, i + 1);
    } else {
        assert(s.take(i) =~= s);
    }
}

proof fn lemma_dec_val_nonneg(s: Seq<u8>)
    requires
        forall|k: int| 0 <= k < s.len() ==> is_dec_digit(s[k]),
    ensures
        0 <= dec_val(s),
    decreases s.len(),
{
    if s.len() > 0 {
        assert(is_dec_digit(s.last()));
        lemma_dec_val_nonneg(s.drop_last());
        lemma_dec_val_times_ten(dec_val(s.drop_last()));
    }
}

/// Ten times a non-negative value is no less than the value.
proof fn lemma_dec_val_times_ten(v: int)
    requires
        0 <= v,
    ensures
        v <= v * 10,
{
}

/// Parses a stream of decimal digits, refusing values beyond the
/// machine word.
fn parse_decimal(s: &[u8]) -> (r: Option<usize>)
    ensures
        match r {
            Some(v) => all_dec_digits(s@) && dec_val(s@) <= usize::MAX && v == dec_val(s@),
            None => !(all_dec_digits(s@) && dec_val(s@) <= usize::MAX),
        },
{
    if s.len() == 0 {
        return None;
    }
    let mut acc: usize = 0;
    let mut i: usize = 0;
    proof {
        assert(s@.take(0) =~= Seq::<u8>::empty());
    }
    while i < s.len()
        invariant
            i <= s@.len(),
            s@.len() > 0,
            forall|k: int| 0 <= k < i ==> is_dec_digit(s@[k]),
            acc == dec_val(s@.take(i as int)),
        decreases s@.len() - i,
    {
        let b = *slice_index_get(s, i);
        if b < 48 || b > 57 {
            return None;
        }
        let d = (b - 48) as usize;
        proof {
            assert(s@.take(i + 1).drop_last() =~= s@.take(i as int));
            assert(s@.take(i + 1).last() == s@[i as int]);
        }
        if acc > (usize::MAX - d) / 10 {
            proof {
                lemma_dec_val_nonneg(s@.take(i as int));
                assert(dec_val(s@.take(i + 1)) == acc * 10 + d);
                assert(acc * 10 + d > usize::MAX) by (nonlinear_arith)
                    requires
                        acc > (usize::MAX - d) / 10,
                        0 <= d <= 9,
                        acc >= 0,
                ;
                if all_dec_digits(s@) {
                    lemma_dec_val_mono(s@, i + 1);
                }
            }
            return None;
        }
        proof {
            assert(acc * 10 + d <= usize::MAX) by (nonlinear_arith)
                requires
                    acc <= (usize::MAX - d) / 10,
                    0 <= d <= 9,
                    acc >= 0,
            ;
        }
        acc = acc * 10 + d;
        i += 1;
    }
    proof {
        assert(s@.take(s@.len() as int) =~= s@);
    }
    Some(acc)
}

/// Parses a number given in decimal or as `0x`-prefixed hex; a hex
/// value wraps at the machine word.
pub fn legal_hex_or_decimal(arg: &[u8]) -> (r: Result<usize, CliError>)
    ensures
        r == numeral_spec(arg@),
{
    if arg.len() >= 2 && *slice_index_get(arg, 0) == 48 && *slice_index_get(arg, 1) == 120 {
        let digits = slice_subrange(arg, 2, arg.len());
        proof {
            assert(digits@ =~= arg@.skip(2));
        }
        let bytes = match hex_decode_bytes(digits) {
            Ok(v) => v,
            Err(_) => {
                return Err(CliError::NotHexNumber);
            },
        };
        let mut acc: usize = 0;
        let mut i: usize = 0;
        let ghost m = usize::MAX + 1;
        proof {
            assert(bytes@.take(0) =~= Seq::<u8>::empty());
        }
        while i < bytes.len()
            invariant
                i <= bytes@.len(),
                m == usize::MAX + 1,
                acc == bytes_val(bytes@.take(i as int)) % m,
            decreases bytes@.len() - i,
        {
            let b = bytes[i];
            proof {
                assert(bytes@.take(i + 1).drop_last() =~= bytes@.take(i as int));
                assert(bytes@.take(i + 1).last() == bytes@[i as int]);
                lemma_bytes_val_nonneg(bytes@.take(i as int));
                let v = bytes_val(bytes@.take(i as int));
                vstd::arithmetic::div_mod::lemma_mul_mod_noop_left(v, 256, m);
                vstd::arithmetic::div_mod::lemma_add_mod_noop(v * 256, b as int, m);
                assert((v % m * 256 % m + b as int % m) % m == (v * 256 + b) % m);
                assert(b as int % m == b as int);
            }
            acc = acc.wrapping_mul(256).wrapping_add(b as usize);
            i += 1;
        }
        proof {
            assert(bytes@.take(bytes@.len() as int) =~= bytes@);
        }
        Ok(acc)
    } else {
        match parse_decimal(arg) {
            Some(v) => Ok(v),
            None => Err(CliError::NotNumber),
        }
    }
}

proof fn lemma_bytes_val_nonneg(s: Seq<u8>)
    ensures
        0 <= bytes_val(s),
    decreases s.len(),
{
    if s.len() > 0 {
        lemma_bytes_val_nonneg(s.drop_last());
    }
}

/// Parses a number and reduces it to 32 bits.
pub fn legal_u32(arg: &[u8]) -> (r: Result<u32, CliError>)
    ensures
        match r {
            Ok(v) => numeral_spec(arg@) is Ok && v as int == numeral_spec(arg@).unwrap() as int
                % 0x1_0000_0000,
            Err(e) => numeral_spec(arg@) == Err::<usize, CliError>(e),
        },
{
    match legal_hex_or_decimal(arg) {
        Ok(v) => Ok(((v as u64) % 0x1_0000_0000) as u32),
        Err(e) => Err(e),
    }
}

/// Parses a number and reduces it to 8 bits.
pub fn legal_u8(arg: &[u8]) -> (r: Result<u8, CliError>)
    ensures
        match r {
            Ok(v) => numeral_spec(arg@) is Ok && v as int == numeral_spec(arg@).unwrap() as int
                % 256,
            Err(e) => numeral_spec(arg@) == Err::<usize, CliError>(e),
        },
{
    match legal_hex_or_decimal(arg) {
        Ok(v) => Ok((v % 256) as u8),
        Err(e) => Err(e),
    }
}

/// Parses a chunk size: a decimal number that must be 64 or 128.
pub fn legal_chunk_size(arg: &[u8]) -> (r: Result<usize, CliError>)
    ensures
        match r {
            Ok(v) => all_dec_digits(arg@) && dec_val(arg@) <= usize::MAX && v == dec_val(arg@) && (
            v == 64 || v == 128),
            Err(e) => {
                &&& (e == CliError::NotChunkSize || e == CliError::BadChunkSize)
                &&& e == CliError::NotChunkSize <==> !(all_dec_digits(arg@) && dec_val(arg@)
                    <= usize::MAX)
                &&& e == CliError::BadChunkSize ==> dec_val(arg@) != 64 && dec_val(arg@) != 128
            },
        },
{
    match parse_decimal(arg) {
        Some(v) => {
            if v == 64 || v == 128 {
                Ok(v)
            } else {
                Err(CliError::BadChunkSize)
            }
        },
        None => Err(CliError::NotChunkSize),
    }
}

/// The index where a path's file name begins: just after the last
/// slash.
pub open spec fn file_name_start(s: Seq<u8>) -> int
    decreases s.len(),
{
    if s.len() == 0 {
        0
    } else if s.last() == 47 {
        s.len() as int
    } else {
        file_name_start(s.drop_last())
    }
}

/// The index of the last dot in a stream, or -1 if there is none.
pub open spec fn last_dot(s: Seq<u8>) -> int
    decreases s.len(),
{
    if s.len() == 0 {
        -1
    } else if s.last() == 46 {
        s.len() - 1
    } else {
        last_dot(s.drop_last())
    }
}

/// The extension of a path: the part of the file name after its last
/// dot, provided that dot is not the name's first character.
pub open spec fn ext_of(s: Seq<u8>) -> Option<Seq<u8>> {
    let ns = file_name_start(s);
    let name = s.skip(ns);
    let d = last_dot(name);
    if d <= 0 {
        None
    } else {
        Some(name.skip(d + 1))
    }
}

/// The two supported file kinds.
#[derive(Debug, Clone, Copy, PartialEq, Eq)]
pub enum FileKind {
    Hex,
    Vhx,
}

/// The kind a supported extension names: `hex`, `vhx` or `vhx128`.
pub open spec fn kind_of_ext(e: Seq<u8>) -> Option<FileKind> {
    if e == seq![104u8, 101u8, 120u8] {
        Some(FileKind::Hex)
    } else if e == seq![118u8, 104u8, 120u8] {
        Some(FileKind::Vhx)
    } else if e == seq![118u8, 104u8, 120u8, 49u8, 50u8, 56u8] {
        Some(FileKind::Vhx)
    } else {
        None
    }
}

/// The position after the last slash determines the file name start.
proof fn lemma_file_name_start_at(s: Seq<u8>, ns: int)
    requires
        0 <= ns <= s.len(),
        ns > 0 ==> s[ns - 1] == 47,
        forall|k: int| ns <= k < s.len() ==> s[k] != 47,
    ensures
        file_name_start(s) == ns,
    decreases s.len(),
{
    if s.len() == 0 {
    } else if s.last() == 47 {
        assert(ns == s.len());
    } else {
        assert(ns < s.len());
        lemma_file_name_start_at(s.drop_last(), ns);
    }
}

/// The position of a dot with none after it is the last dot.
proof fn lemma_last_dot_at(s: Seq<u8>, d: int)
    requires
        -1 <= d < s.len(),
        d >= 0 ==> s[d] == 46,
        forall|k: int| d < k < s.len() ==> s[k] != 46,
    ensures
        last_dot(s) == d,
    decreases s.len(),
{
    if s.len() == 0 {
    } else if s.last() == 46 {
        assert(d == s.len() - 1);
    } else {
        assert(d < s.len() - 1);
        lemma_last_dot_at(s.drop_last(), d);
    }
}

/// Validates a path's file type by its extension: `hex` names the
/// record format, `vhx` and `vhx128` the word-chunk format.
pub fn legal_file_type(arg: &[u8]) -> (r: Result<FileKind, CliError>)
    ensures
        match ext_of(arg@) {
            None => r == Err::<FileKind, CliError>(CliError::NoExtension),
            Some(e) => match kind_of_ext(e) {
                Some(k) => r == Ok::<FileKind, CliError>(k),
                None => r == Err::<FileKind, CliError>(CliError::UnsupportedType),
            },
        },
{
    let mut ns: usize = arg.len();
    while ns > 0 && *slice_index_get(arg, ns - 1) != 47
        invariant
            ns <= arg@.len(),
            forall|k: int| ns <= k < arg@.len() ==> arg@[k] != 47,
        decreases ns,
    {
        ns -= 1;
    }
    proof {
        lemma_file_name_start_at(arg@, ns as int);
    }
    let ghost name = arg@.skip(ns as int);
    let mut dp: usize = arg.len();
    while dp > ns && *slice_index_get(arg, dp - 1) != 46
        invariant
            ns <= dp <= arg@.len(),
            forall|k: int| dp <= k < arg@.len() ==> arg@[k] != 46,
        decreases dp,
    {
        dp -= 1;
    }
    if dp == ns || dp - 1 == ns {
        proof {
            if dp == ns {
                lemma_last_dot_at(name, -1);
            } else {
                assert(name[0] == arg@[ns as int]);
                lemma_last_dot_at(name, 0);
            }
        }
        return Err(CliError::NoExtension);
    }
    let ghost d = dp - 1 - ns;
    proof {
        assert(name[d as int] == arg@[dp - 1]);
        lemma_last_dot_at(name, d as int);
        assert(name.skip(d as int + 1) =~= arg@.skip(dp as int));
    }
    let elen = arg.len() - dp;
    if elen == 3 {
        let a = *slice_index_get(arg, dp);
        let b = *slice_index_get(arg, dp + 1);
        let c = *slice_index_get(arg, dp + 2);
        if a == 104 && b == 101 && c == 120 {
            proof {
                assert(arg@.skip(dp as int) =~= seq![104u8, 101u8, 120u8]);
            }
            return Ok(FileKind::Hex);
        }
        if a == 118 && b == 104 && c == 120 {
            proof {
                assert(arg@.skip(dp as int) =~= seq![118u8, 104u8, 120u8]);
            }
            return Ok(FileKind::Vhx);
        }
        proof {
            assert(arg@.skip(dp as int) != seq![104u8, 101u8, 120u8]);
            assert(arg@.skip(dp as int) != seq![118u8, 104u8, 120u8]);
            assert(arg@.skip(dp as int).len() == 3);
        }
        return Err(CliError::UnsupportedType);
    }
    if elen == 6 {
        let a = *slice_index_get(arg, dp);
        let b = *slice_index_get(arg, dp + 1);
        let c = *slice_index_get(arg, dp + 2);
        let x = *slice_index_get(arg, dp + 3);
        let y = *slice_index_get(arg, dp + 4);
        let z = *slice_index_get(arg, dp + 5);
        if a == 118 && b == 104 && c == 120 && x == 49 && y == 50 && z == 56 {
            proof {
                assert(arg@.skip(dp as int) =~= seq![118u8, 104u8, 120u8, 49u8, 50u8, 56u8]);
            }
            return Ok(FileKind::Vhx);
        }
        proof {
            assert(arg@.skip(dp as int) != seq![118u8, 104u8, 120u8, 49u8, 50u8, 56u8]);
            assert(arg@.skip(dp as int).len() == 6);
        }
        return Err(CliError::UnsupportedType);
    }
    proof {
        assert(arg@.skip(dp as int).len() != 3 && arg@.skip(dp as int).len() != 6);
    }
    Err(CliError::UnsupportedType)
}

} // verus!
