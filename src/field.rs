use vstd::prelude::*;
use vstd::slice::slice_subrange;
use vstd::string::StringSliceAdditionalSpecFns;
use vstd::utf8::valid_utf8;

verus! {

/// The kinds of decode failure.
#[derive(Debug, Clone, Copy, PartialEq, Eq, Structural)]
pub enum TarError {
    /// A numeric field holds a character outside `'0'..='7'`.
    InvalidOctalDigit,
    /// A text field or a content payload is not valid UTF-8.
    InvalidText,
    /// The buffer ends inside a header, a content payload or its padding.
    UnexpectedEndOfInput,
}

/// A failed decode: why it failed, and where the failing field or block
/// starts, counted in bytes from the start of the input that was decoded.
#[derive(Debug, Clone, Copy, PartialEq, Eq, Structural)]
pub struct DecodeError {
    pub kind: TarError,
    pub offset: usize,
}

impl DecodeError {
    /// The failure as the models state it: its kind and its offset.
    pub open spec fn spec_pair(self) -> (TarError, nat) {
        (self.kind, self.offset as nat)
    }
}

/// Position of the first NUL byte of `s`, or its length when it holds none.
pub open spec fn text_end(s: Seq<u8>) -> nat
    decreases s.len(),
{
    if s.len() == 0 {
        0
    } else if s[0] == 0 {
        0
    } else {
        1 + text_end(s.drop_first())
    }
}

/// The text of a fixed-width slot: its bytes up to the first NUL. A slot
/// without a NUL is text in full.
pub open spec fn field_text(slot: Seq<u8>) -> Seq<u8> {
    slot.take(text_end(slot) as int)
}

/// `text_end` is the first position that holds a NUL, or the end.
pub proof fn lemma_text_end(s: Seq<u8>, k: int)
    requires
        0 <= k <= s.len(),
        forall|j: int| 0 <= j < k ==> #[trigger] s[j] != 0,
        k == s.len() || s[k] == 0,
    ensures
        text_end(s) == k,
    decreases k,
{
    if k > 0 {
        lemma_text_end(s.drop_first(), k - 1);
    }
}

/// The text of a slot is no longer than the slot.
pub proof fn lemma_text_end_bound(s: Seq<u8>)
    ensures
        text_end(s) <= s.len(),
        field_text(s).len() == text_end(s),
    decreases s.len(),
{
    if s.len() > 0 {
        lemma_text_end_bound(s.drop_first());
    }
}

/// Relies on std::str::from_utf8: it accepts exactly the valid UTF-8 byte
/// strings, and the text it hands back views those same bytes.
#[verifier::external_body]
pub(crate) fn utf8_text<'a>(b: &'a [u8]) -> (r: Option<&'a str>)
    ensures
        r is Some <==> valid_utf8(b@),
        r matches Some(s) ==> s.spec_bytes() == b@,
{
    std::str::from_utf8(b).ok()
}

/// Reads a text slot of `n` bytes at the start of `i`.
///
/// The text ends at the first NUL inside the slot, or fills the slot when it
/// holds none; the read position always advances by exactly `n` bytes.
pub fn take_str_eat_garbage<'a>(i: &'a [u8], n: usize) -> (r: Result<(&'a [u8], &'a str), TarError>)
    ensures
        i@.len() < n <==> r == Err::<(&'a [u8], &'a str), TarError>(TarError::UnexpectedEndOfInput),
        i@.len() >= n ==> (r is Ok <==> valid_utf8(field_text(i@.take(n as int)))),
        i@.len() >= n && !valid_utf8(field_text(i@.take(n as int)))
            ==> r == Err::<(&'a [u8], &'a str), TarError>(TarError::InvalidText),
        r matches Ok((rest, s)) ==> rest@ == i@.skip(n as int) && s.spec_bytes() == field_text(
            i@.take(n as int),
        ),
{
    if i.len() < n {
        return Err(TarError::UnexpectedEndOfInput);
    }
    let mut k: usize = 0;
    while k < n && i[k] != 0
        invariant
            n <= i@.len(),
            k <= n,
            forall|j: int| 0 <= j < k ==> #[trigger] i@[j] != 0,
        decreases n - k,
    {
        k = k + 1;
    }
    proof {
        let slot = i@.take(n as int);
        lemma_text_end(slot, k as int);
        assert(slot.take(k as int) =~= i@.subrange(0, k as int));
    }
    match utf8_text(slice_subrange(i, 0, k)) {
        Some(s) => Ok((slice_subrange(i, n, i.len()), s)),
        None => Err(TarError::InvalidText),
    }
}

} // verus!
