//! Hexadecimal text primitives.
//!
//! Every scalar of the library renders to `0x`-prefixed lowercase
//! hexadecimal text, and is parsed back from such text (upper-case digits
//! and an `0X` prefix are accepted on input). The spec functions here are
//! the single definition of that text form; the executable functions are
//! proved against them.

use vstd::prelude::*;

use crate::error::Error;

verus! {

/// Whether `c` is a hexadecimal digit (either case).
pub open spec fn is_hex_digit(c: char) -> bool {
    (48 <= c as u32 && c as u32 <= 57)  // '0' ..= '9'
    || (97 <= c as u32 && c as u32 <= 102)  // 'a' ..= 'f'
    || (65 <= c as u32 && c as u32 <= 70)  // 'A' ..= 'F'
}

/// The numeric value of a hexadecimal digit.
pub open spec fn hex_digit_val(c: char) -> u8
    recommends
        is_hex_digit(c),
{
    if 48 <= c as u32 && c as u32 <= 57 {
        (c as u32 - 48) as u8
    } else if 97 <= c as u32 && c as u32 <= 102 {
        (c as u32 - 87) as u8
    } else {
        (c as u32 - 55) as u8
    }
}

/// The lowercase hexadecimal digit for a value below sixteen.
pub open spec fn nibble_char(n: u8) -> char
    recommends
        n < 16,
{
    if n < 10 {
        (48 + n as u32) as char
    } else {
        (87 + n as u32) as char
    }
}

/// Full lowercase hexadecimal of a byte sequence: two digits per byte,
/// leading zero bytes included.
pub open spec fn hex_of(bs: Seq<u8>) -> Seq<char>
    decreases bs.len(),
{
    if bs.len() == 0 {
        Seq::empty()
    } else {
        hex_of(bs.drop_last()) + seq![
            nibble_char(bs.last() / 16),
            nibble_char(bs.last() % 16),
        ]
    }
}

/// Whether a (prefix-stripped) payload is decodable: even length, hex
/// digits throughout.
pub open spec fn valid_hex_body(s: Seq<char>) -> bool {
    s.len() % 2 == 0 && (forall|i: int| 0 <= i < s.len() ==> is_hex_digit(#[trigger] s[i]))
}

/// The bytes a valid payload decodes to, one byte per digit pair.
pub open spec fn hex_to_bytes(s: Seq<char>) -> Seq<u8>
    recommends
        valid_hex_body(s),
{
    Seq::new(s.len() / 2, |i: int| (hex_digit_val(s[2 * i]) * 16 + hex_digit_val(s[2 * i + 1])) as u8)
}

/// Whether text starts with the required `0x` or `0X` prefix.
pub open spec fn has_hex_prefix(s: Seq<char>) -> bool {
    s.len() >= 2 && s[0] == '0' && (s[1] == 'x' || s[1] == 'X')
}

/// The payload after the two prefix characters.
pub open spec fn hex_body(s: Seq<char>) -> Seq<char>
    recommends
        s.len() >= 2,
{
    s.subrange(2, s.len() as int)
}

/// Minimal (no leading zeros, a single digit for zero) lowercase
/// hexadecimal rendering of an unsigned integer.
pub open spec fn uint_hex(n: nat) -> Seq<char>
    decreases n,
{
    if n < 16 {
        seq![nibble_char(n as u8)]
    } else {
        uint_hex(n / 16) + seq![nibble_char((n % 16) as u8)]
    }
}

/// The numeric value of a digit sequence read most-significant first.
pub open spec fn hex_seq_val(s: Seq<char>) -> nat
    decreases s.len(),
{
    if s.len() == 0 {
        0
    } else {
        hex_seq_val(s.drop_last()) * 16 + hex_digit_val(s.last()) as nat
    }
}

/// Strips the required `0x`/`0X` prefix from `s`.
pub fn clean_0x(s: &str) -> (r: Result<String, Error>)
    ensures
        match r {
            Ok(body) => has_hex_prefix(s@) && body@ == hex_body(s@),
            Err(e) => e == Error::HexPrefix && !has_hex_prefix(s@),
        },
{
    let n = s.unicode_len();
    if n < 2 {
        return Err(Error::HexPrefix);
    }
    let c0 = s.get_char(0);
    let c1 = s.get_char(1);
    if c0 == '0' && (c1 == 'x' || c1 == 'X') {
        Ok(s.substring_char(2, n).to_owned())
    } else {
        Err(Error::HexPrefix)
    }
}

/// The numeric value of one hexadecimal digit, or `None` where `c` is no
/// such digit.
fn hex_val(c: char) -> (r: Option<u8>)
    ensures
        match r {
            Some(v) => is_hex_digit(c) && v == hex_digit_val(c) && v < 16,
            None => !is_hex_digit(c),
        },
{
    let u = c as u32;
    if 48 <= u && u <= 57 {
        Some((u - 48) as u8)
    } else if 97 <= u && u <= 102 {
        Some((u - 87) as u8)
    } else if 65 <= u && u <= 70 {
        Some((u - 55) as u8)
    } else {
        None
    }
}

/// The lowercase digit for a value below sixteen, as a one-character
/// string slice.
fn nibble_str(n: u8) -> (r: &'static str)
    requires
        n < 16,
    ensures
        r@.len() == 1,
        r@[0] == nibble_char(n),
{
    match n {
        0 => { proof { reveal_strlit("0"); } "0" },
        1 => { proof { reveal_strlit("1"); } "1" },
        2 => { proof { reveal_strlit("2"); } "2" },
        3 => { proof { reveal_strlit("3"); } "3" },
        4 => { proof { reveal_strlit("4"); } "4" },
        5 => { proof { reveal_strlit("5"); } "5" },
        6 => { proof { reveal_strlit("6"); } "6" },
        7 => { proof { reveal_strlit("7"); } "7" },
        8 => { proof { reveal_strlit("8"); } "8" },
        9 => { proof { reveal_strlit("9"); } "9" },
        10 => { proof { reveal_strlit("a"); } "a" },
        11 => { proof { reveal_strlit("b"); } "b" },
        12 => { proof { reveal_strlit("c"); } "c" },
        13 => { proof { reveal_strlit("d"); } "d" },
        14 => { proof { reveal_strlit("e"); } "e" },
        _ => { proof { reveal_strlit("f"); } "f" },
    }
}

/// Renders a byte sequence as `0x`-prefixed full lowercase hexadecimal.
pub fn hex_encode(src: &[u8]) -> (r: String)
    ensures
        r@ == seq!['0', 'x'] + hex_of(src@),
{
    proof {
        reveal_strlit("0x");
    }
    let mut out = String::from_str("0x");
    let mut i: usize = 0;
    while i < src.len()
        invariant
            i <= src.len(),
            out@ == seq!['0', 'x'] + hex_of(src@.take(i as int)),
        decreases src.len() - i,
    {
        let b = src[i];
        out.append(nibble_str(b / 16));
        out.append(nibble_str(b % 16));
        proof {
            assert(src@.take(i + 1 as int).drop_last() =~= src@.take(i as int));
            assert(src@.take(i + 1 as int).last() == src@[i as int]);
            assert(out@ =~= seq!['0', 'x'] + hex_of(src@.take(i + 1 as int)));
        }
        i = i + 1;
    }
    proof {
        assert(src@.take(src@.len() as int) =~= src@);
    }
    out
}

/// Decodes `0x`-prefixed hexadecimal text into bytes. The empty string
/// decodes to the empty byte sequence; any other input must carry the
/// prefix and an even number of hexadecimal digits.
pub fn hex_decode(src: &str) -> (r: Result<Vec<u8>, Error>)
    ensures
        match r {
            Ok(v) => (src@.len() == 0 && v@ == Seq::<u8>::empty()) || (has_hex_prefix(src@)
                && valid_hex_body(hex_body(src@)) && v@ == hex_to_bytes(hex_body(src@))),
            Err(e) => src@.len() > 0 && ((e == Error::HexPrefix && !has_hex_prefix(src@)) || (e
                == Error::FromHex && has_hex_prefix(src@) && !valid_hex_body(hex_body(src@)))),
        },
{
    let n = s_len(src);
    if n == 0 {
        return Ok(Vec::new());
    }
    if n < 2 {
        return Err(Error::HexPrefix);
    }
    let c0 = src.get_char(0);
    let c1 = src.get_char(1);
    if !(c0 == '0' && (c1 == 'x' || c1 == 'X')) {
        return Err(Error::HexPrefix);
    }
    let m = n - 2;
    if m % 2 != 0 {
        return Err(Error::FromHex);
    }
    let ghost body = hex_body(src@);
    let mut out: Vec<u8> = Vec::new();
    let mut i: usize = 0;
    while i < m / 2
        invariant
            0 <= i,
            2 * i <= m,
            m == n - 2,
            m % 2 == 0,
            n == src@.len(),
            n >= 2,
            has_hex_prefix(src@),
            body == hex_body(src@),
            body.len() == m,
            forall|j: int| 0 <= j < 2 * i ==> is_hex_digit(#[trigger] body[j]),
            out@.len() == i,
            forall|j: int|
                0 <= j < i ==> #[trigger] out@[j] == (hex_digit_val(body[2 * j]) * 16
                    + hex_digit_val(body[2 * j + 1])) as u8,
        decreases m - 2 * i,
    {
        let hi = src.get_char(2 + 2 * i);
        let lo = src.get_char(2 + 2 * i + 1);
        proof {
            assert(body[2 * i as int] == src@[2 + 2 * i]);
            assert(body[2 * i as int + 1] == src@[2 + 2 * i + 1]);
        }
        let hv = match hex_val(hi) {
            Some(v) => v,
            None => {
                proof {
                    assert(!is_hex_digit(body[2 * i as int]));
                }
                return Err(Error::FromHex);
            },
        };
        let lv = match hex_val(lo) {
            Some(v) => v,
            None => {
                proof {
                    assert(!is_hex_digit(body[2 * i as int + 1]));
                }
                return Err(Error::FromHex);
            },
        };
        out.push(hv * 16 + lv);
        i = i + 1;
    }
    proof {
        assert(body.len() == m);
        assert(valid_hex_body(body));
        assert(out@ =~= hex_to_bytes(body));
    }
    Ok(out)
}

/// The character count of `src`, wrapping `unicode_len`.
fn s_len(src: &str) -> (n: usize)
    ensures
        n == src@.len(),
{
    src.unicode_len()
}

/// Renders an unsigned integer as `0x`-prefixed minimal lowercase
/// hexadecimal: no leading zeros, a single `0` digit for zero.
pub fn hex_uint(src: u128) -> (r: String)
    ensures
        r@ == seq!['0', 'x'] + uint_hex(src as nat),
{
    if src == 0 {
        proof {
            reveal_strlit("0x0");
        }
        let out = String::from_str("0x0");
        proof {
            assert(uint_hex(0) == seq![nibble_char(0)]);
            assert(out@ =~= seq!['0', 'x'] + uint_hex(0));
        }
        return out;
    }
    let mut n = src;
    let mut acc = String::new();
    while n > 0
        invariant
            uint_hex(src as nat) == (if n > 0 {
                uint_hex(n as nat)
            } else {
                Seq::<char>::empty()
            }) + acc@,
        decreases n,
    {
        let d = (n % 16) as u8;
        let rest = n / 16;
        let ghost old_acc = acc@;
        proof {
            if n >= 16 {
                assert(uint_hex(n as nat) == uint_hex(n as nat / 16) + seq![
                    nibble_char((n as nat % 16) as u8),
                ]);
                assert(uint_hex(n as nat / 16) + seq![nibble_char((n as nat % 16) as u8)] + old_acc
                    =~= uint_hex(n as nat / 16) + (seq![nibble_char((n as nat % 16) as u8)]
                    + old_acc));
            } else {
                assert(uint_hex(n as nat) == seq![nibble_char(n as u8)]);
            }
        }
        acc = String::from_str(nibble_str(d)).concat(acc.as_str());
        n = rest;
    }
    proof {
        reveal_strlit("0x");
    }
    let pre = String::from_str("0x");
    let out = pre.concat(acc.as_str());
    proof {
        assert(out@ =~= seq!['0', 'x'] + uint_hex(src as nat));
    }
    out
}

/// Parses a prefix-stripped digit sequence as an unsigned 128-bit
/// integer, most-significant digit first.
pub fn hex_body_to_u128(s: &str) -> (r: Result<u128, Error>)
    ensures
        match r {
            Ok(v) => s@.len() > 0 && (forall|i: int|
                0 <= i < s@.len() ==> is_hex_digit(#[trigger] s@[i])) && hex_seq_val(s@)
                <= u128::MAX && v == hex_seq_val(s@),
            Err(e) => e == Error::ParseUint && (s@.len() == 0 || (exists|i: int|
                0 <= i < s@.len() && !is_hex_digit(#[trigger] s@[i])) || hex_seq_val(s@)
                > u128::MAX),
        },
{
    let n = s_len(s);
    if n == 0 {
        return Err(Error::ParseUint);
    }
    let mut acc: u128 = 0;
    let mut i: usize = 0;
    while i < n
        invariant
            0 <= i <= n,
            n == s@.len(),
            forall|j: int| 0 <= j < i ==> is_hex_digit(#[trigger] s@[j]),
            acc == hex_seq_val(s@.take(i as int)),
        decreases n - i,
    {
        let c = s.get_char(i);
        let v = match hex_val(c) {
            Some(v) => v,
            None => { return Err(Error::ParseUint) },
        };
        proof {
            assert(s@.take(i + 1 as int).drop_last() =~= s@.take(i as int));
            assert(s@.take(i + 1 as int).last() == s@[i as int]);
        }
        if acc > (u128::MAX - v as u128) / 16 {
            proof {
                assert(16 * acc + v as u128 > u128::MAX) by (nonlinear_arith)
                    requires
                        acc > (u128::MAX - v as u128) / 16,
                        v < 16,
                ;
                lemma_hex_val_take_le(s@, i + 1 as int);
            }
            return Err(Error::ParseUint);
        }
        proof {
            assert(16 * acc + v as u128 <= u128::MAX) by (nonlinear_arith)
                requires
                    acc <= (u128::MAX - v as u128) / 16,
                    v < 16,
            ;
        }
        acc = acc * 16 + v as u128;
        i = i + 1;
    }
    proof {
        assert(s@.take(n as int) =~= s@);
    }
    Ok(acc)
}

/// The value of a digit sequence never falls below the value of any of
/// its prefixes.
pub proof fn lemma_hex_val_take_le(s: Seq<char>, k: int)
    requires
        0 <= k <= s.len(),
    ensures
        hex_seq_val(s.take(k)) <= hex_seq_val(s),
    decreases s.len(),
{
    if k < s.len() {
        assert(s.drop_last().take(k) =~= s.take(k));
        lemma_hex_val_take_le(s.drop_last(), k);
        assert(hex_seq_val(s) == hex_seq_val(s.drop_last()) * 16 + hex_digit_val(s.last()) as nat);
        assert(hex_seq_val(s.drop_last()) * 16 >= hex_seq_val(s.drop_last())) by (nonlinear_arith);
    } else {
        assert(s.take(k) =~= s);
    }
}

/// Law: full-byte hexadecimal text round-trips. The rendering of any
/// byte sequence is a decodable payload, and decodes back to the same
/// bytes.
pub proof fn lemma_hex_round_trip_bytes(bs: Seq<u8>)
    ensures
        hex_of(bs).len() == 2 * bs.len(),
        valid_hex_body(hex_of(bs)),
        hex_to_bytes(hex_of(bs)) == bs,
    decreases bs.len(),
{
    if bs.len() == 0 {
    } else {
        lemma_hex_round_trip_bytes(bs.drop_last());
        let s = hex_of(bs);
        let sp = hex_of(bs.drop_last());
        let b = bs.last();
        assert(b / 16 < 16 && b % 16 < 16);
        assert(is_hex_digit(nibble_char(b / 16)) && hex_digit_val(nibble_char(b / 16)) == b / 16);
        assert(is_hex_digit(nibble_char(b % 16)) && hex_digit_val(nibble_char(b % 16)) == b % 16);
        assert(forall|i: int| 0 <= i < s.len() ==> is_hex_digit(#[trigger] s[i])) by {
            assert(forall|i: int| 0 <= i < sp.len() ==> s[i] == #[trigger] sp[i]);
        }
        assert(hex_to_bytes(s) =~= bs) by {
            assert(forall|i: int| 0 <= i < bs.len() - 1 ==> #[trigger] hex_to_bytes(s)[i]
                == hex_to_bytes(sp)[i]);
            assert(s[2 * (bs.len() - 1)] == nibble_char(b / 16));
            assert(s[2 * (bs.len() - 1) + 1] == nibble_char(b % 16));
            assert(hex_to_bytes(s)[bs.len() - 1] == ((b / 16) * 16 + (b % 16)) as u8);
        }
    }
}

/// Law: minimal integer hexadecimal text round-trips. The rendering of
/// any value is a nonempty all-digit sequence whose value is the one
/// rendered.
pub proof fn lemma_hex_round_trip_uint(n: nat)
    ensures
        uint_hex(n).len() >= 1,
        forall|i: int| 0 <= i < uint_hex(n).len() ==> is_hex_digit(#[trigger] uint_hex(n)[i]),
        hex_seq_val(uint_hex(n)) == n,
    decreases n,
{
    if n < 16 {
        assert(is_hex_digit(nibble_char(n as u8)) && hex_digit_val(nibble_char(n as u8)) == n);
        let s = uint_hex(n);
        assert(s == seq![nibble_char(n as u8)]);
        assert(s.drop_last() =~= Seq::<char>::empty());
        assert(hex_seq_val(Seq::<char>::empty()) == 0);
        assert(hex_seq_val(s) == 0 * 16 + hex_digit_val(nibble_char(n as u8)) as nat);
    } else {
        lemma_hex_round_trip_uint(n / 16);
        let s = uint_hex(n);
        let sp = uint_hex(n / 16);
        assert((n % 16) < 16);
        assert(is_hex_digit(nibble_char((n % 16) as u8)) && hex_digit_val(
            nibble_char((n % 16) as u8),
        ) == n % 16);
        assert(s.drop_last() =~= sp);
        assert(s.last() == nibble_char((n % 16) as u8));
        assert(hex_seq_val(s) == hex_seq_val(sp) * 16 + (n % 16));
        assert(hex_seq_val(s) == (n / 16) * 16 + (n % 16));
        assert((n / 16) * 16 + (n % 16) == n) by (nonlinear_arith);
        assert(forall|i: int| 0 <= i < sp.len() ==> s[i] == #[trigger] sp[i]);
    }
}

} // verus!
