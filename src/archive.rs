use vstd::prelude::*;
use vstd::slice::slice_subrange;
use vstd::string::StringSliceAdditionalSpecFns;
use vstd::utf8::valid_utf8;

use crate::field::{utf8_text, DecodeError, TarError};
use crate::header::{
    header_error, header_model, number_error, parse_header, text_at, ustar_magic, HeaderFields,
    PosixHeader, BLOCK_SIZE,
};
use crate::octal::all_octal;

verus! {

/// One archive entry: its header and its content, both views into the input.
///
/// Content is read as UTF-8 text; an entry whose content is not text fails to
/// decode.
#[derive(Debug, Clone, Copy, PartialEq, Eq)]
pub struct TarEntry<'a> {
    pub header: PosixHeader<'a>,
    pub contents: &'a str,
}

/// What an entry holds: its header and the bytes of its content.
pub struct EntryFields {
    pub header: HeaderFields,
    pub contents: Seq<u8>,
}

impl<'a> View for TarEntry<'a> {
    type V = EntryFields;

    open spec fn view(&self) -> EntryFields {
        EntryFields { header: self.header@, contents: self.contents.spec_bytes() }
    }
}

pub open spec fn entries_view<'a>(v: Seq<TarEntry<'a>>) -> Seq<EntryFields> {
    v.map_values(|e: TarEntry<'a>| e@)
}

/// Number of padding bytes that follow `size` content bytes, so that the
/// next header starts on a 512-byte boundary.
pub open spec fn padding_of(size: nat) -> nat {
    ((512 - size % 512) % 512) as nat
}

/// The header at the start of `b`, or how it fails.
pub open spec fn header_result(b: Seq<u8>) -> Result<HeaderFields, (TarError, nat)> {
    match header_error(b) {
        Some(e) => Err(e),
        None => Ok(header_model(b)),
    }
}

/// The content of `size` bytes at the start of `s` and the number of bytes it
/// takes with its padding, or how it fails.
pub open spec fn contents_result(s: Seq<u8>, size: nat) -> Result<(Seq<u8>, nat), TarError> {
    if s.len() < size + padding_of(size) {
        Err(TarError::UnexpectedEndOfInput)
    } else if !valid_utf8(s.take(size as int)) {
        Err(TarError::InvalidText)
    } else {
        Ok((s.take(size as int), size + padding_of(size)))
    }
}

/// The entry at the start of `s` and the number of bytes it takes, or how it
/// fails and where. A content that fails, fails at its start.
#[verifier::opaque]
pub open spec fn decode_entry(s: Seq<u8>) -> Result<(EntryFields, nat), (TarError, nat)> {
    match header_result(s) {
        Err(e) => Err(e),
        Ok(h) => match contents_result(s.skip(512), h.size) {
            Err(k) => Err((k, 512)),
            Ok((c, n)) => Ok((EntryFields { header: h, contents: c }, 512 + n)),
        },
    }
}

/// The entries of `s` in order, or the first failure and its offset in `s`.
pub open spec fn decode_archive(s: Seq<u8>) -> Result<Seq<EntryFields>, (TarError, nat)>
    decreases s.len(),
    via decode_archive_decreases
{
    if s.len() == 0 {
        Ok(seq![])
    } else {
        match decode_entry(s) {
            Err(e) => Err(e),
            Ok((e, n)) => match decode_archive(s.skip(n as int)) {
                Err((k, o)) => Err((k, o + n)),
                Ok(es) => Ok(seq![e] + es),
            },
        }
    }
}

#[via_fn]
proof fn decode_archive_decreases(s: Seq<u8>) {
    lemma_entry_extent(s);
}

/// An entry that stands for user data rather than the end-of-archive marker.
pub open spec fn is_named(e: EntryFields) -> bool {
    e.header.name.len() > 0
}

/// The entries of `es` that have a name, in order.
pub open spec fn named_entries(es: Seq<EntryFields>) -> Seq<EntryFields> {
    es.filter(|e: EntryFields| is_named(e))
}

/// The entries of the archive `s` without its end-of-archive markers, or the
/// first failure.
pub open spec fn decode_tar(s: Seq<u8>) -> Result<Seq<EntryFields>, (TarError, nat)> {
    match decode_archive(s) {
        Err(e) => Err(e),
        Ok(es) => Ok(named_entries(es)),
    }
}

/// `done`, decoded from the first `base` bytes, placed before the outcome `r`
/// of decoding what follows them.
pub open spec fn prepend(done: Seq<EntryFields>, base: nat, r: Result<Seq<EntryFields>, (TarError, nat)>) -> Result<
    Seq<EntryFields>,
    (TarError, nat),
> {
    match r {
        Err((k, o)) => Err((k, o + base)),
        Ok(es) => Ok(done + es),
    }
}

/// An entry takes its 512-byte header, its content and the padding after the
/// content; so it takes a whole number of 512-byte blocks, and no more bytes
/// than there are.
pub proof fn lemma_entry_extent(s: Seq<u8>)
    ensures
        decode_entry(s) matches Ok((e, n)) ==> n == 512 + e.contents.len() + padding_of(
            e.contents.len(),
        ) && n % 512 == 0 && n <= s.len(),
{
    reveal(decode_entry);
    if let Ok((e, n)) = decode_entry(s) {
        let size = e.header.size;
        assert(e.contents.len() == size);
        assert((size + padding_of(size)) % 512 == 0);
    }
}

/// Decoding a non-empty archive decodes its first entry, then what follows it.
pub proof fn lemma_archive_step(s: Seq<u8>, e: EntryFields, n: nat)
    requires
        s.len() > 0,
        decode_entry(s) == Ok::<(EntryFields, nat), (TarError, nat)>((e, n)),
    ensures
        0 < n <= s.len(),
        decode_archive(s) == prepend(seq![e], n, decode_archive(s.skip(n as int))),
{
    lemma_entry_extent(s);
}

/// Placing `a` before `b` before `r` is placing `a + b` before `r`.
pub proof fn lemma_prepend_assoc(
    a: Seq<EntryFields>,
    x: nat,
    b: Seq<EntryFields>,
    y: nat,
    r: Result<Seq<EntryFields>, (TarError, nat)>,
)
    ensures
        prepend(a, x, prepend(b, y, r)) == prepend(a + b, x + y, r),
{
    if let Ok(es) = r {
        assert(a + (b + es) =~= (a + b) + es);
    }
}

/// A non-octal character in the text of the first header's uid field fails
/// the decode of the whole archive: no entry comes back.
pub proof fn lemma_bad_uid_fails(s: Seq<u8>)
    requires
        s.len() >= 512,
        !all_octal(text_at(s.skip(108), 8)),
    ensures
        decode_tar(s) is Err,
{
    reveal(decode_entry);
    assert(number_error(s.skip(108), 8) is Some);
    assert(header_error(s) is Some);
}

/// A block of 512 zero bytes decodes as an entry without a name, without
/// content, that takes exactly that block.
pub proof fn lemma_zero_block(z: Seq<u8>)
    requires
        z.len() >= 512,
        forall|k: int| 0 <= k < 512 ==> z[k] == 0,
    ensures
        decode_entry(z) matches Ok((e, n)) && !is_named(e) && n == 512 && e.contents.len() == 0,
{
    reveal(decode_entry);
    assert forall|k: int, w: int| 0 <= k < 400 && 0 < w && k + w <= 512 implies #[trigger] text_at(
        z.skip(k),
        w,
    ) =~= Seq::<u8>::empty() by {
        assert(z.skip(k).take(w)[0] == 0);
    }
    assert(valid_utf8(Seq::<u8>::empty()));
    assert(z.subrange(257, 512).take(6)[0] != ustar_magic()[0]);
    assert(header_error(z) is None);
    assert(header_model(z).size == 0);
    assert(z.skip(512).take(0) =~= Seq::<u8>::empty());
}

/// An archive made of one entry with a name followed by two all-zero
/// blocks decodes to that entry alone.
pub proof fn lemma_end_of_archive(s: Seq<u8>, e: EntryFields, n: nat)
    requires
        decode_entry(s) == Ok::<(EntryFields, nat), (TarError, nat)>((e, n)),
        is_named(e),
        s.len() == n + 1024,
        forall|k: int| n <= k < s.len() ==> s[k] == 0,
    ensures
        decode_tar(s) == Ok::<Seq<EntryFields>, (TarError, nat)>(seq![e]),
{
    lemma_entry_extent(s);
    let z1 = s.skip(n as int);
    lemma_zero_block(z1);
    let (e1, n1) = decode_entry(z1)->Ok_0;
    let z2 = z1.skip(512);
    lemma_zero_block(z2);
    let (e2, n2) = decode_entry(z2)->Ok_0;
    assert(z2.skip(512).len() == 0);
    lemma_archive_step(z2, e2, n2);
    lemma_archive_step(z1, e1, n1);
    lemma_archive_step(s, e, n);
    assert(decode_archive(s) == Ok::<Seq<EntryFields>, (TarError, nat)>(
        seq![e] + (seq![e1] + (seq![e2] + seq![])),
    ));
    let all = seq![e] + (seq![e1] + (seq![e2] + seq![]));
    assert(all =~= seq![e, e1, e2]);
    reveal_with_fuel(Seq::filter, 4);
    assert(all.drop_last() =~= seq![e, e1]);
    assert(all.drop_last().drop_last() =~= seq![e]);
    assert(all.drop_last().drop_last().drop_last() =~= Seq::<EntryFields>::empty());
    assert(named_entries(all) =~= seq![e]);
}

/// Reads `size` content bytes at the start of `i`, then passes over the
/// padding up to the next 512-byte boundary.
pub fn parse_contents<'a>(i: &'a [u8], size: u64) -> (r: Result<(&'a [u8], &'a str), TarError>)
    ensures
        r is Err <==> contents_result(i@, size as nat) is Err,
        r matches Err(e) ==> contents_result(i@, size as nat) == Err::<(Seq<u8>, nat), TarError>(e),
        r matches Ok((rest, c)) ==> contents_result(i@, size as nat) == Ok::<(Seq<u8>, nat), TarError>((c.spec_bytes(), (size + padding_of(size as nat)) as nat))
            && rest@ == i@.skip(size + padding_of(size as nat)),
{
    let trailing: u64 = size % 512;
    let padding: u64 = if trailing == 0 {
        0
    } else {
        512 - trailing
    };
    assert(padding == padding_of(size as nat));
    let len = i.len() as u64;
    if len < size || len - size < padding {
        return Err(TarError::UnexpectedEndOfInput);
    }
    let end = (size + padding) as usize;
    match utf8_text(slice_subrange(i, 0, size as usize)) {
        Some(c) => Ok((slice_subrange(i, end, i.len()), c)),
        None => Err(TarError::InvalidText),
    }
}

/// Decodes the entry at the start of `i`: its header, then its content.
pub fn parse_entry<'a>(i: &'a [u8]) -> (r: Result<(&'a [u8], TarEntry<'a>), DecodeError>)
    ensures
        r is Err <==> decode_entry(i@) is Err,
        r matches Err(e) ==> decode_entry(i@) == Err::<(EntryFields, nat), (TarError, nat)>(
            e.spec_pair(),
        ) && e.offset <= i@.len(),
        r matches Ok((rest, e)) ==> decode_entry(i@) == Ok::<(EntryFields, nat), (TarError, nat)>(
            (e@, (i@.len() - rest@.len()) as nat),
        )
            && rest@.len() <= i@.len() && rest@ == i@.skip(i@.len() - rest@.len()),
{
    reveal(decode_entry);
    let (rest, header) = parse_header(i)?;
    let (rest2, contents) = match parse_contents(rest, header.size) {
        Ok(x) => x,
        Err(k) => return Err(DecodeError { kind: k, offset: BLOCK_SIZE }),
    };
    Ok((rest2, TarEntry { header: header, contents: contents }))
}

/// Keeps, in order, the entries whose header has a name.
pub fn filter_entries<'a>(entries: Vec<TarEntry<'a>>) -> (r: Result<Vec<TarEntry<'a>>, &'static str>)
    ensures
        r matches Ok(v) && entries_view(v@) == named_entries(entries_view(entries@)),
{
    let mut out: Vec<TarEntry<'a>> = Vec::new();
    let mut k: usize = 0;
    while k < entries.len()
        invariant
            k <= entries@.len(),
            entries_view(out@) == named_entries(entries_view(entries@.take(k as int))),
        decreases entries@.len() - k,
    {
        let e = entries[k];
        proof {
            let p = entries_view(entries@.take(k + 1));
            assert(p.drop_last() =~= entries_view(entries@.take(k as int)));
            assert(p.last() == e@);
            reveal(Seq::filter);
            assert(e.header.name@.len() == 0 <==> e.header.name.spec_bytes().len() == 0);
            assert(named_entries(p) == if is_named(e@) {
                named_entries(p.drop_last()).push(e@)
            } else {
                named_entries(p.drop_last())
            });
        }
        if !e.header.name.is_empty() {
            let ghost before = out@;
            out.push(e);
            assert(entries_view(out@) =~= entries_view(before).push(e@));
        }
        k = k + 1;
    }
    assert(entries@.take(entries@.len() as int) =~= entries@);
    Ok(out)
}

/// Decodes a whole archive held in `i`.
///
/// Entries are decoded one after another until the input is used up; the
/// first entry that fails fails the whole decode, and no entry is returned.
/// On success the end-of-archive markers (entries without a name) are left
/// out and the rest keep their order.
pub fn parse_tar<'a>(i: &'a [u8]) -> (r: Result<Vec<TarEntry<'a>>, DecodeError>)
    ensures
        r is Err <==> decode_tar(i@) is Err,
        r matches Err(e) ==> decode_tar(i@) == Err::<Seq<EntryFields>, (TarError, nat)>(
            e.spec_pair(),
        ),
        r matches Ok(v) ==> decode_tar(i@) == Ok::<Seq<EntryFields>, (TarError, nat)>(
            entries_view(v@),
        ),
{
    let mut entries: Vec<TarEntry<'a>> = Vec::new();
    let mut rest = i;
    while rest.len() > 0
        invariant
            rest@.len() <= i@.len(),
            rest@ == i@.skip(i@.len() - rest@.len()),
            decode_archive(i@) == prepend(
                entries_view(entries@),
                (i@.len() - rest@.len()) as nat,
                decode_archive(rest@),
            ),
        decreases rest@.len(),
    {
        match parse_entry(rest) {
            Ok((next, e)) => {
                proof {
                    lemma_archive_step(rest@, e@, (rest@.len() - next@.len()) as nat);
                    lemma_prepend_assoc(
                        entries_view(entries@),
                        (i@.len() - rest@.len()) as nat,
                        seq![e@],
                        (rest@.len() - next@.len()) as nat,
                        decode_archive(next@),
                    );
                    assert(next@ =~= i@.skip(i@.len() - next@.len()));
                }
                let ghost before = entries@;
                entries.push(e);
                assert(entries_view(entries@) =~= entries_view(before) + seq![e@]);
                rest = next;
            },
            Err(x) => {
                let base = i.len() - rest.len();
                return Err(DecodeError { kind: x.kind, offset: base + x.offset });
            },
        }
    }
    assert(entries_view(entries@) + seq![] =~= entries_view(entries@));
    assert(i@.len() - rest@.len() == i@.len());
    match filter_entries(entries) {
        Ok(v) => Ok(v),
        Err(_) => Err(DecodeError { kind: TarError::InvalidText, offset: 0 }),
    }
}

} // verus!
