use vstd::prelude::*;
use vstd::utf8::{encode_utf8, encode_utf8_valid_utf8, is_ascii_chars, is_ascii_chars_encode_utf8, valid_utf8};

use crate::archive::{
    decode_archive, decode_entry, decode_tar, is_named, lemma_archive_step, lemma_end_of_archive,
    named_entries, padding_of, EntryFields,
};
use crate::field::{field_text, lemma_text_end, TarError};
use crate::header::{
    header_error, header_model, ustar_magic, ustar_model, ustar_version, HeaderFields,
    UStarFields,
};
use crate::octal::{all_octal, is_octal_digit, octal_value, pow8};
use crate::typeflag::type_flag_of;

verus! {

/// `n` zero bytes.
pub open spec fn zeros(n: nat) -> Seq<u8> {
    Seq::new(n, |i: int| 0u8)
}

/// A text slot of `w` bytes holding `t`, NUL-padded.
pub open spec fn text_slot(t: Seq<u8>, w: nat) -> Seq<u8> {
    t + zeros((w - t.len()) as nat)
}

/// The `n` lowest octal digits of `v`, most significant first.
pub open spec fn octal_digits(v: nat, n: nat) -> Seq<u8>
    decreases n,
{
    if n == 0 {
        seq![]
    } else {
        octal_digits(v / 8, (n - 1) as nat).push((48 + v % 8) as u8)
    }
}

/// A numeric slot of `w` bytes: `w - 1` zero-padded octal digits, then NUL.
pub open spec fn number_slot(v: nat, w: nat) -> Seq<u8> {
    octal_digits(v, (w - 1) as nat).push(0u8)
}

/// The last 255 bytes of a header: the extension record, or zero padding.
pub open spec fn ustar_block(u: Option<UStarFields>) -> Seq<u8> {
    match u {
        None => zeros(255),
        Some(x) => ustar_magic() + ustar_version() + text_slot(x.uname, 32) + text_slot(x.gname, 32)
            + number_slot(x.devmajor, 8) + number_slot(x.devminor, 8) + text_slot(x.prefix, 155)
            + zeros(12),
    }
}

/// The 512-byte header record that holds `h`, with type byte `flag`.
pub open spec fn header_block(h: HeaderFields, flag: u8) -> Seq<u8> {
    text_slot(h.name, 100) + text_slot(h.mode, 8) + number_slot(h.uid, 8) + number_slot(h.gid, 8)
        + number_slot(h.size, 12) + number_slot(h.mtime, 12) + text_slot(h.chksum, 8) + seq![flag]
        + text_slot(h.linkname, 100) + ustar_block(h.ustar)
}

/// `t` can stand in a text slot of `w` bytes: it fits, holds no NUL and is
/// valid UTF-8.
pub open spec fn fits_text(t: Seq<u8>, w: nat) -> bool {
    t.len() <= w && valid_utf8(t) && forall|i: int| 0 <= i < t.len() ==> #[trigger] t[i] != 0
}

/// `v` can stand in a numeric slot of `w` bytes.
pub open spec fn fits_number(v: nat, w: nat) -> bool {
    v < pow8((w - 1) as nat)
}

/// Every field of `h` is within its width, and its kind is that of `flag`.
pub open spec fn header_fits(h: HeaderFields, flag: u8) -> bool {
    fits_text(h.name, 100) && fits_text(h.mode, 8) && fits_number(h.uid, 8) && fits_number(h.gid, 8)
        && fits_number(h.size, 12) && fits_number(h.mtime, 12) && fits_text(h.chksum, 8)
        && h.typeflag == type_flag_of(flag as char) && fits_text(h.linkname, 100) && match h.ustar {
        None => true,
        Some(x) => x.magic == "ustar\0"@ && x.version == "00"@ && fits_text(x.uname, 32) && fits_text(
            x.gname,
            32,
        ) && fits_number(x.devmajor, 8) && fits_number(x.devminor, 8) && fits_text(x.prefix, 155),
    }
}

pub proof fn lemma_octal_digits(v: nat, n: nat)
    requires
        v < pow8(n),
    ensures
        octal_digits(v, n).len() == n,
        all_octal(octal_digits(v, n)),
        octal_value(octal_digits(v, n)) == v,
    decreases n,
{
    if n > 0 {
        let q = pow8((n - 1) as nat);
        assert(v / 8 < q) by (nonlinear_arith)
            requires
                v < 8 * q,
        ;
        lemma_octal_digits(v / 8, (n - 1) as nat);
        let d = octal_digits(v, n);
        assert(d.drop_last() =~= octal_digits(v / 8, (n - 1) as nat));
        assert(forall|i: int| 0 <= i < d.len() - 1 ==> d[i] == d.drop_last()[i]);
        assert((v / 8) * 8 + v % 8 == v) by (nonlinear_arith);
    }
}

/// Bytes below 128 are valid UTF-8.
pub proof fn lemma_ascii_valid_utf8(d: Seq<u8>)
    requires
        forall|i: int| 0 <= i < d.len() ==> #[trigger] d[i] < 128,
    ensures
        valid_utf8(d),
{
    let chars = Seq::new(d.len(), |i: int| d[i] as char);
    assert(is_ascii_chars(chars));
    is_ascii_chars_encode_utf8(chars);
    encode_utf8_valid_utf8(chars);
    assert(encode_utf8(chars) =~= d);
}

/// A text slot reads back as the text it was given.
pub proof fn lemma_text_slot(t: Seq<u8>, w: nat)
    requires
        fits_text(t, w),
    ensures
        text_slot(t, w).len() == w,
        field_text(text_slot(t, w)) == t,
{
    let s = text_slot(t, w);
    lemma_text_end(s, t.len() as int);
    assert(field_text(s) =~= t);
}

/// A numeric slot reads back as valid digits of the value it was given.
pub proof fn lemma_number_slot(v: nat, w: nat)
    requires
        w >= 1,
        fits_number(v, w),
    ensures
        number_slot(v, w).len() == w,
        valid_utf8(field_text(number_slot(v, w))),
        all_octal(field_text(number_slot(v, w))),
        octal_value(field_text(number_slot(v, w))) == v,
{
    let d = octal_digits(v, (w - 1) as nat);
    lemma_octal_digits(v, (w - 1) as nat);
    let s = number_slot(v, w);
    assert forall|i: int| 0 <= i < d.len() implies #[trigger] s[i] != 0 by {
        assert(is_octal_digit(d[i]));
    }
    lemma_text_end(s, d.len() as int);
    assert(field_text(s) =~= d);
    assert forall|i: int| 0 <= i < d.len() implies #[trigger] d[i] < 128 by {
        assert(is_octal_digit(d[i]));
    }
    lemma_ascii_valid_utf8(d);
}

/// The extension block reads back as the record it was given, or as none.
proof fn lemma_ustar_block(u: Option<UStarFields>)
    requires
        match u {
            None => true,
            Some(x) => x.magic == "ustar\0"@ && x.version == "00"@ && fits_text(x.uname, 32)
                && fits_text(x.gname, 32) && fits_number(x.devmajor, 8) && fits_number(
                x.devminor,
                8,
            ) && fits_text(x.prefix, 155),
        },
    ensures
        ustar_block(u).len() == 255,
        ustar_model(ustar_block(u)) == u,
{
    let t = ustar_block(u);
    match u {
        None => {
            assert(t.take(6)[0] != ustar_magic()[0]);
        },
        Some(x) => {
            lemma_text_slot(x.uname, 32);
            lemma_text_slot(x.gname, 32);
            lemma_number_slot(x.devmajor, 8);
            lemma_number_slot(x.devminor, 8);
            lemma_text_slot(x.prefix, 155);
            let v = t.skip(6);
            assert(t.take(6) =~= ustar_magic());
            assert(v.take(2) =~= ustar_version());
            assert(v.skip(2).take(32) =~= text_slot(x.uname, 32));
            assert(v.skip(34).take(32) =~= text_slot(x.gname, 32));
            assert(v.skip(66).take(8) =~= number_slot(x.devmajor, 8));
            assert(v.skip(74).take(8) =~= number_slot(x.devminor, 8));
            assert(v.skip(82).take(155) =~= text_slot(x.prefix, 155));
        },
    }
}

/// Round trip: a header record laid out from field values that fit their
/// slots decodes without error, to exactly those values.
pub proof fn lemma_header_round_trip(h: HeaderFields, flag: u8)
    requires
        header_fits(h, flag),
    ensures
        header_block(h, flag).len() == 512,
        header_error(header_block(h, flag)) is None,
        header_model(header_block(h, flag)) == h,
{
    lemma_text_slot(h.name, 100);
    lemma_text_slot(h.mode, 8);
    lemma_number_slot(h.uid, 8);
    lemma_number_slot(h.gid, 8);
    lemma_number_slot(h.size, 12);
    lemma_number_slot(h.mtime, 12);
    lemma_text_slot(h.chksum, 8);
    lemma_text_slot(h.linkname, 100);
    lemma_ustar_block(h.ustar);
    let b = header_block(h, flag);
    assert(b.take(100) =~= text_slot(h.name, 100));
    assert(b.skip(100).take(8) =~= text_slot(h.mode, 8));
    assert(b.skip(108).take(8) =~= number_slot(h.uid, 8));
    assert(b.skip(116).take(8) =~= number_slot(h.gid, 8));
    assert(b.skip(124).take(12) =~= number_slot(h.size, 12));
    assert(b.skip(136).take(12) =~= number_slot(h.mtime, 12));
    assert(b.skip(148).take(8) =~= text_slot(h.chksum, 8));
    assert(b[156] == flag);
    assert(b.skip(157).take(100) =~= text_slot(h.linkname, 100));
    assert(b.subrange(257, 512) =~= ustar_block(h.ustar));
}

/// An entry laid out: its header record, its content, and zero padding up to
/// the next 512-byte boundary.
pub open spec fn entry_bytes(h: HeaderFields, flag: u8, c: Seq<u8>) -> Seq<u8> {
    header_block(h, flag) + c + zeros(padding_of(c.len()))
}

/// Round trip: an entry laid out from a header that fits its slots and a
/// UTF-8 content of the declared size decodes, whatever follows it, to
/// exactly that header and content, and takes exactly its own bytes.
pub proof fn lemma_entry_round_trip(h: HeaderFields, flag: u8, c: Seq<u8>, rest: Seq<u8>)
    requires
        header_fits(h, flag),
        h.size == c.len(),
        valid_utf8(c),
    ensures
        decode_entry(entry_bytes(h, flag, c) + rest) == Ok::<(EntryFields, nat), (TarError, nat)>(
            (EntryFields { header: h, contents: c }, entry_bytes(h, flag, c).len()),
        ),
{
    reveal(decode_entry);
    lemma_header_round_trip(h, flag);
    let e = entry_bytes(h, flag, c);
    let s = e + rest;
    let b = header_block(h, flag);
    assert(s.take(100) =~= b.take(100));
    assert forall|k: int, w: int| 0 <= k && 0 <= w && k + w <= 512 implies #[trigger] s.skip(k).take(w)
        =~= b.skip(k).take(w) by {}
    assert(s.subrange(257, 512) =~= b.subrange(257, 512));
    assert(s[156] == b[156]);
    assert(header_error(s) == header_error(b));
    assert(header_model(s) == header_model(b));
    assert(s.skip(512).take(c.len() as int) =~= c);
}

/// Round trip of a whole archive: one entry laid out from fitting values,
/// with a name, followed by two all-zero blocks, decodes to that entry alone.
pub proof fn lemma_archive_round_trip(h: HeaderFields, flag: u8, c: Seq<u8>)
    requires
        header_fits(h, flag),
        h.name.len() > 0,
        h.size == c.len(),
        valid_utf8(c),
    ensures
        decode_tar(entry_bytes(h, flag, c) + zeros(1024)) == Ok::<Seq<EntryFields>, (TarError, nat)>(
            seq![EntryFields { header: h, contents: c }],
        ),
{
    let e = entry_bytes(h, flag, c);
    lemma_entry_round_trip(h, flag, c, zeros(1024));
    lemma_end_of_archive(e + zeros(1024), EntryFields { header: h, contents: c }, e.len());
}

/// One entry to lay out: its header, its type byte and its content.
pub struct EntryLayout {
    pub header: HeaderFields,
    pub flag: u8,
    pub contents: Seq<u8>,
}

/// The entry's values fit their slots and its content is UTF-8 text of the
/// declared size.
pub open spec fn entry_fits(x: EntryLayout) -> bool {
    header_fits(x.header, x.flag) && x.header.size == x.contents.len() && valid_utf8(x.contents)
}

/// The entry that `x` should decode to.
pub open spec fn entry_of(x: EntryLayout) -> EntryFields {
    EntryFields { header: x.header, contents: x.contents }
}

/// The entries laid out one after another.
pub open spec fn archive_bytes(xs: Seq<EntryLayout>) -> Seq<u8>
    decreases xs.len(),
{
    if xs.len() == 0 {
        seq![]
    } else {
        entry_bytes(xs[0].header, xs[0].flag, xs[0].contents) + archive_bytes(xs.drop_first())
    }
}

/// Round trip of a sequence of entries: laid out one after another, entries
/// whose values fit decode to exactly those entries, in the same order.
pub proof fn lemma_entries_round_trip(xs: Seq<EntryLayout>)
    requires
        forall|i: int| 0 <= i < xs.len() ==> entry_fits(#[trigger] xs[i]),
    ensures
        decode_archive(archive_bytes(xs)) == Ok::<Seq<EntryFields>, (TarError, nat)>(
            xs.map_values(|x: EntryLayout| entry_of(x)),
        ),
    decreases xs.len(),
{
    if xs.len() > 0 {
        let x = xs[0];
        assert(entry_fits(xs[0]));
        let rest = xs.drop_first();
        assert forall|i: int| 0 <= i < rest.len() implies entry_fits(#[trigger] rest[i]) by {
            assert(rest[i] == xs[i + 1]);
        }
        lemma_entries_round_trip(rest);
        let e = entry_bytes(x.header, x.flag, x.contents);
        let s = archive_bytes(xs);
        lemma_entry_round_trip(x.header, x.flag, x.contents, archive_bytes(rest));
        lemma_header_round_trip(x.header, x.flag);
        assert(e.len() >= 512);
        lemma_archive_step(s, entry_of(x), e.len());
        assert(s.skip(e.len() as int) =~= archive_bytes(rest));
        assert(seq![entry_of(x)] + rest.map_values(|x: EntryLayout| entry_of(x)) =~= xs.map_values(
            |x: EntryLayout| entry_of(x),
        ));
    } else {
        assert(xs.map_values(|x: EntryLayout| entry_of(x)) =~= Seq::<EntryFields>::empty());
    }
}

/// Keeping the named entries of a sequence whose entries all have names
/// keeps them all.
pub proof fn lemma_all_named(es: Seq<EntryFields>)
    requires
        forall|i: int| 0 <= i < es.len() ==> is_named(#[trigger] es[i]),
    ensures
        named_entries(es) == es,
    decreases es.len(),
{
    reveal(Seq::filter);
    if es.len() > 0 {
        lemma_all_named(es.drop_last());
        assert(is_named(es[es.len() - 1]));
        assert(es.drop_last().push(es.last()) =~= es);
    }
}

/// Round trip of a whole archive: entries whose values fit, each with a
/// name, laid out one after another, decode to exactly those entries in the
/// same order.
pub proof fn lemma_archive_entries_round_trip(xs: Seq<EntryLayout>)
    requires
        forall|i: int| 0 <= i < xs.len() ==> entry_fits(#[trigger] xs[i]),
        forall|i: int| 0 <= i < xs.len() ==> (#[trigger] xs[i]).header.name.len() > 0,
    ensures
        decode_tar(archive_bytes(xs)) == Ok::<Seq<EntryFields>, (TarError, nat)>(
            xs.map_values(|x: EntryLayout| entry_of(x)),
        ),
{
    lemma_entries_round_trip(xs);
    let es = xs.map_values(|x: EntryLayout| entry_of(x));
    assert forall|i: int| 0 <= i < es.len() implies is_named(#[trigger] es[i]) by {
        assert(xs[i].header.name.len() > 0);
    }
    lemma_all_named(es);
}

} // verus!
