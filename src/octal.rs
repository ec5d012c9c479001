use vstd::prelude::*;
use vstd::string::StringSliceAdditionalSpecFns;
use vstd::utf8::{
    char_is_scalar, encode_scalar, encode_utf8, has_width_1_encoding, has_width_2_encoding,
    has_width_3_encoding, is_ascii_chars, is_ascii_chars_encode_utf8,
};

verus! {

/// Why an octal digit string fails to decode.
#[derive(Debug, Clone, Copy, PartialEq, Eq, Structural)]
pub enum OctalError {
    /// The first character outside `'0'..='7'`.
    InvalidDigit(char),
    /// The digits are valid but their value exceeds `u64::MAX`.
    OutOfRange,
}

pub open spec fn is_octal_char(c: char) -> bool {
    '0' <= c <= '7'
}

pub open spec fn is_octal_digit(c: u8) -> bool {
    48 <= c <= 55
}

pub open spec fn all_octal(s: Seq<u8>) -> bool {
    forall|i: int| 0 <= i < s.len() ==> is_octal_digit(#[trigger] s[i])
}

/// The base-8 value of a string of octal digits, most significant first.
pub open spec fn octal_value(s: Seq<u8>) -> nat
    decreases s.len(),
{
    if s.len() == 0 {
        0
    } else {
        octal_value(s.drop_last()) * 8 + (s.last() - 48) as nat
    }
}

/// A prefix of a digit string is worth no more than the whole string.
pub proof fn lemma_octal_value_prefix(s: Seq<u8>, k: int)
    requires
        all_octal(s),
        0 <= k <= s.len(),
    ensures
        octal_value(s.take(k)) <= octal_value(s),
    decreases s.len(),
{
    if k < s.len() {
        assert(s.drop_last().take(k) =~= s.take(k));
        lemma_octal_value_prefix(s.drop_last(), k);
        assert(is_octal_digit(s[s.len() - 1]));
    } else {
        assert(s.take(k) =~= s);
    }
}

/// `8` raised to the power `n`.
pub open spec fn pow8(n: nat) -> nat
    decreases n,
{
    if n == 0 {
        1
    } else {
        8 * pow8((n - 1) as nat)
    }
}

/// `n` octal digits are worth less than `8` to the power `n`.
pub proof fn lemma_octal_value_bound(s: Seq<u8>)
    requires
        all_octal(s),
    ensures
        octal_value(s) < pow8(s.len()),
    decreases s.len(),
{
    if s.len() > 0 {
        let p = s.drop_last();
        lemma_octal_value_bound(p);
        assert(is_octal_digit(s[s.len() - 1]));
        let v = octal_value(p);
        let q = pow8(p.len());
        let d = (s.last() - 48) as nat;
        assert(v * 8 + d < 8 * q) by (nonlinear_arith)
            requires
                v < q,
                d < 8,
        ;
    }
}

/// At most twelve octal digits always fit in `u64`.
pub proof fn lemma_short_octal_fits(s: Seq<u8>)
    requires
        all_octal(s),
        s.len() <= 12,
    ensures
        octal_value(s) < pow8(12),
        pow8(12) == 68719476736,
{
    reveal_with_fuel(pow8, 13);
    if s.len() < 12 {
        lemma_octal_value_bound(s);
        lemma_pow8_monotone(s.len(), 12);
    } else {
        lemma_octal_value_bound(s);
    }
}

pub proof fn lemma_pow8_monotone(a: nat, b: nat)
    requires
        a <= b,
    ensures
        pow8(a) <= pow8(b),
    decreases b,
{
    if a < b {
        lemma_pow8_monotone(a, (b - 1) as nat);
    }
}

/// The first byte of a character's UTF-8 encoding is an octal digit only
/// when the character is one.
proof fn lemma_leading_byte(c: char)
    requires
        !is_octal_char(c),
    ensures
        !is_octal_digit(encode_scalar(c as u32)[0]),
{
    let x = c as u32;
    char_is_scalar(c);
    if has_width_1_encoding(x) {
        assert((x & 0x7F) == x) by (bit_vector)
            requires
                x <= 0x7F,
        ;
    } else if has_width_2_encoding(x) {
        let y: u8 = ((x >> 6) & 0x1F) as u8;
        assert(0xC0u8 | y >= 0xC0u8) by (bit_vector);
    } else if has_width_3_encoding(x) {
        let y: u8 = ((x >> 12) & 0x0F) as u8;
        assert(0xE0u8 | y >= 0xE0u8) by (bit_vector);
    } else {
        let y: u8 = ((x >> 18) & 0x7) as u8;
        assert(0xF0u8 | y >= 0xF0u8) by (bit_vector);
    }
}

/// A string's UTF-8 bytes are all octal digits exactly when its characters
/// are.
pub proof fn lemma_octal_chars_bytes(cs: Seq<char>)
    ensures
        all_octal(encode_utf8(cs)) <==> forall|k: int| 0 <= k < cs.len() ==> is_octal_char(#[trigger] cs[k]),
    decreases cs.len(),
{
    if forall|k: int| 0 <= k < cs.len() ==> is_octal_char(#[trigger] cs[k]) {
        assert(is_ascii_chars(cs));
        is_ascii_chars_encode_utf8(cs);
        assert forall|i: int| 0 <= i < encode_utf8(cs).len() implies is_octal_digit(
            #[trigger] encode_utf8(cs)[i],
        ) by {
            assert(cs[i] as u8 == encode_utf8(cs)[i]);
        }
    } else {
        let k = choose|k: int| 0 <= k < cs.len() && !is_octal_char(#[trigger] cs[k]);
        let first = encode_scalar(cs[0] as u32);
        char_is_scalar(cs[0]);
        assert(first.len() >= 1);
        if k == 0 {
            lemma_leading_byte(cs[0]);
            assert(encode_utf8(cs)[0] == first[0]);
        } else {
            assert(!is_octal_char(cs.drop_first()[k - 1]));
            lemma_octal_chars_bytes(cs.drop_first());
            let rest = encode_utf8(cs.drop_first());
            let i = choose|i: int| 0 <= i < rest.len() && !is_octal_digit(#[trigger] rest[i]);
            assert(encode_utf8(cs)[first.len() + i] == rest[i]);
        }
    }
}

/// Decodes an ASCII octal digit string; the empty string is worth 0.
///
/// Fails with `InvalidDigit` naming the first character outside `'0'..='7'`,
/// and with `OutOfRange` when the digits are valid but their value exceeds
/// `u64::MAX`.
pub fn octal_to_u64(s: &str) -> (r: Result<u64, OctalError>)
    ensures
        all_octal(s.spec_bytes()) <==> forall|k: int| 0 <= k < s@.len() ==> is_octal_char(#[trigger] s@[k]),
        r is Ok <==> all_octal(s.spec_bytes()) && octal_value(s.spec_bytes()) <= u64::MAX,
        r matches Ok(v) ==> v as nat == octal_value(s.spec_bytes()),
        r matches Err(OctalError::InvalidDigit(_)) <==> !all_octal(s.spec_bytes()),
        r matches Err(OctalError::InvalidDigit(c)) ==> exists|k: int|
            0 <= k < s@.len() && s@[k] == c && !is_octal_char(c) && forall|j: int|
                0 <= j < k ==> is_octal_char(#[trigger] s@[j]),
        r matches Err(OctalError::OutOfRange) <==> all_octal(s.spec_bytes()) && octal_value(
            s.spec_bytes(),
        ) > u64::MAX,
{
    let len = s.unicode_len();
    let mut i: usize = 0;
    while i < len
        invariant
            len == s@.len(),
            i <= len,
            forall|k: int| 0 <= k < i ==> is_octal_char(#[trigger] s@[k]),
        decreases len - i,
    {
        let c = s.get_char(i);
        if c < '0' || c > '7' {
            proof {
                assert(!is_octal_char(s@[i as int]));
                assert(s.spec_bytes() == encode_utf8(s@));
                lemma_octal_chars_bytes(s@);
            }
            return Err(OctalError::InvalidDigit(c));
        }
        i = i + 1;
    }
    proof {
        assert(s.spec_bytes() == encode_utf8(s@));
        lemma_octal_chars_bytes(s@);
    }
    let b = s.as_bytes();
    let n = b.len();
    let mut u: u64 = 0;
    let mut j: usize = 0;
    while j < n
        invariant
            n == b@.len(),
            b@ == s.spec_bytes(),
            all_octal(b@),
            forall|k: int| 0 <= k < s@.len() ==> is_octal_char(#[trigger] s@[k]),
            j <= n,
            u as nat == octal_value(b@.take(j as int)),
        decreases n - j,
    {
        assert(b@.take(j + 1).drop_last() =~= b@.take(j as int));
        let d: u64 = (b[j] - 48) as u64;
        match u.checked_mul(8) {
            Some(m) => match m.checked_add(d) {
                Some(v) => {
                    u = v;
                },
                None => {
                    proof { lemma_octal_value_prefix(b@, j + 1); }
                    return Err(OctalError::OutOfRange);
                },
            },
            None => {
                proof { lemma_octal_value_prefix(b@, j + 1); }
                return Err(OctalError::OutOfRange);
            },
        }
        j = j + 1;
    }
    assert(b@.take(n as int) =~= b@);
    Ok(u)
}

} // verus!
