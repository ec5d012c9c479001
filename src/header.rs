use vstd::prelude::*;
use vstd::slice::slice_subrange;
use vstd::string::StringSliceAdditionalSpecFns;
use vstd::utf8::valid_utf8;

use crate::field::{field_text, lemma_text_end_bound, take_str_eat_garbage, DecodeError, TarError};
use crate::octal::{
    all_octal, lemma_short_octal_fits, octal_to_u64, octal_value,
};
use crate::typeflag::{char_to_type_flag, type_flag_of, TypeFlag};

verus! {

/// Width of every header record, in bytes.
pub const BLOCK_SIZE: usize = 512;

/// The USTAR extension record of a header.
#[derive(Debug, Clone, Copy, PartialEq, Eq)]
pub struct UStarHeader<'a> {
    pub magic: &'a str,
    pub version: &'a str,
    pub uname: &'a str,
    pub gname: &'a str,
    pub devmajor: u64,
    pub devminor: u64,
    pub prefix: &'a str,
}

/// A decoded 512-byte header record.
///
/// Text fields view the input buffer. The checksum field is kept as it
/// stands and is not checked against the record.
#[derive(Debug, Clone, Copy, PartialEq, Eq)]
pub struct PosixHeader<'a> {
    pub name: &'a str,
    pub mode: &'a str,
    pub uid: u64,
    pub gid: u64,
    pub size: u64,
    pub mtime: u64,
    pub chksum: &'a str,
    pub typeflag: TypeFlag,
    pub linkname: &'a str,
    pub ustar: Option<UStarHeader<'a>>,
}

/// What a USTAR extension record holds: text fields as their bytes.
pub struct UStarFields {
    pub magic: Seq<char>,
    pub version: Seq<char>,
    pub uname: Seq<u8>,
    pub gname: Seq<u8>,
    pub devmajor: nat,
    pub devminor: nat,
    pub prefix: Seq<u8>,
}

/// What a header record holds: text fields as their bytes.
pub struct HeaderFields {
    pub name: Seq<u8>,
    pub mode: Seq<u8>,
    pub uid: nat,
    pub gid: nat,
    pub size: nat,
    pub mtime: nat,
    pub chksum: Seq<u8>,
    pub typeflag: TypeFlag,
    pub linkname: Seq<u8>,
    pub ustar: Option<UStarFields>,
}

impl<'a> View for UStarHeader<'a> {
    type V = UStarFields;

    open spec fn view(&self) -> UStarFields {
        UStarFields {
            magic: self.magic@,
            version: self.version@,
            uname: self.uname.spec_bytes(),
            gname: self.gname.spec_bytes(),
            devmajor: self.devmajor as nat,
            devminor: self.devminor as nat,
            prefix: self.prefix.spec_bytes(),
        }
    }
}

pub open spec fn ustar_view<'a>(u: Option<UStarHeader<'a>>) -> Option<UStarFields> {
    match u {
        Some(x) => Some(x@),
        None => None,
    }
}

impl<'a> View for PosixHeader<'a> {
    type V = HeaderFields;

    open spec fn view(&self) -> HeaderFields {
        HeaderFields {
            name: self.name.spec_bytes(),
            mode: self.mode.spec_bytes(),
            uid: self.uid as nat,
            gid: self.gid as nat,
            size: self.size as nat,
            mtime: self.mtime as nat,
            chksum: self.chksum.spec_bytes(),
            typeflag: self.typeflag,
            linkname: self.linkname.spec_bytes(),
            ustar: ustar_view(self.ustar),
        }
    }
}

/// The text of the `w`-byte slot at the start of `s`.
pub open spec fn text_at(s: Seq<u8>, w: int) -> Seq<u8> {
    field_text(s.take(w))
}

/// The value of the `w`-byte octal slot at the start of `s`.
pub open spec fn number_at(s: Seq<u8>, w: int) -> nat {
    octal_value(text_at(s, w))
}

/// How the text slot at the start of `s` fails, if it does.
pub open spec fn text_error(s: Seq<u8>, w: int) -> Option<TarError> {
    if valid_utf8(text_at(s, w)) {
        None
    } else {
        Some(TarError::InvalidText)
    }
}

/// How the octal slot at the start of `s` fails, if it does.
pub open spec fn number_error(s: Seq<u8>, w: int) -> Option<TarError> {
    if !valid_utf8(text_at(s, w)) {
        Some(TarError::InvalidText)
    } else if !all_octal(text_at(s, w)) {
        Some(TarError::InvalidOctalDigit)
    } else {
        None
    }
}

/// A failure of the field at offset `off`.
pub open spec fn at(e: Option<TarError>, off: nat) -> Option<(TarError, nat)> {
    match e {
        Some(k) => Some((k, off)),
        None => None,
    }
}

/// The first of two failures.
pub open spec fn or_else(a: Option<(TarError, nat)>, b: Option<(TarError, nat)>) -> Option<
    (TarError, nat),
> {
    if a is Some {
        a
    } else {
        b
    }
}

/// The bytes `"ustar\0"` that open the extension record.
pub open spec fn ustar_magic() -> Seq<u8> {
    seq![117u8, 115u8, 116u8, 97u8, 114u8, 0u8]
}

/// The version bytes `"00"` that follow the magic.
pub open spec fn ustar_version() -> Seq<u8> {
    seq![48u8, 48u8]
}

/// The extension record read from the bytes after its magic, if they form one.
pub open spec fn ustar00_model(u: Seq<u8>) -> Option<UStarFields> {
    if u.take(2) == ustar_version() && valid_utf8(text_at(u.skip(2), 32)) && valid_utf8(
        text_at(u.skip(34), 32),
    ) && number_error(u.skip(66), 8) is None && number_error(u.skip(74), 8) is None
        && valid_utf8(text_at(u.skip(82), 155)) {
        Some(
            UStarFields {
                magic: "ustar\0"@,
                version: "00"@,
                uname: text_at(u.skip(2), 32),
                gname: text_at(u.skip(34), 32),
                devmajor: number_at(u.skip(66), 8),
                devminor: number_at(u.skip(74), 8),
                prefix: text_at(u.skip(82), 155),
            },
        )
    } else {
        None
    }
}

/// The extension record read from the last 255 bytes of a header: present
/// when they open with `"ustar\0"` and decode in full, absent otherwise.
pub open spec fn ustar_model(t: Seq<u8>) -> Option<UStarFields> {
    if t.take(6) == ustar_magic() {
        ustar00_model(t.skip(6))
    } else {
        None
    }
}

/// How decoding a header at the start of `b` fails, and the offset of the
/// failing field: the first failing field in layout order. A buffer too
/// short for a header fails at the header's start.
pub open spec fn header_error(b: Seq<u8>) -> Option<(TarError, nat)> {
    if b.len() < 512 {
        Some((TarError::UnexpectedEndOfInput, 0))
    } else {
        or_else(
            at(text_error(b, 100), 0),
            or_else(
                at(text_error(b.skip(100), 8), 100),
                or_else(
                    at(number_error(b.skip(108), 8), 108),
                    or_else(
                        at(number_error(b.skip(116), 8), 116),
                        or_else(
                            at(number_error(b.skip(124), 12), 124),
                            or_else(
                                at(number_error(b.skip(136), 12), 136),
                                or_else(
                                    at(text_error(b.skip(148), 8), 148),
                                    at(text_error(b.skip(157), 100), 157),
                                ),
                            ),
                        ),
                    ),
                ),
            ),
        )
    }
}

/// The header decoded from the start of `b`, where `header_error(b)` is `None`.
pub open spec fn header_model(b: Seq<u8>) -> HeaderFields {
    HeaderFields {
        name: text_at(b, 100),
        mode: text_at(b.skip(100), 8),
        uid: number_at(b.skip(108), 8),
        gid: number_at(b.skip(116), 8),
        size: number_at(b.skip(124), 12),
        mtime: number_at(b.skip(136), 12),
        chksum: text_at(b.skip(148), 8),
        typeflag: type_flag_of(b[156] as char),
        linkname: text_at(b.skip(157), 100),
        ustar: ustar_model(b.subrange(257, 512)),
    }
}

/// A header whose bytes 257 to 264 are `"ustar\0"` and `"00"`, and whose
/// extension fields decode, carries the extension record read from offsets
/// 265 (uname), 297 (gname), 329 (devmajor), 337 (devminor) and 345
/// (prefix). A header without the magic at offset 257 carries none.
pub proof fn lemma_ustar_detection(b: Seq<u8>)
    requires
        b.len() >= 512,
    ensures
        b.subrange(257, 265) == ustar_magic() + ustar_version() && valid_utf8(
            text_at(b.skip(265), 32),
        ) && valid_utf8(text_at(b.skip(297), 32)) && number_error(b.skip(329), 8) is None
            && number_error(b.skip(337), 8) is None && valid_utf8(text_at(b.skip(345), 155))
            ==> header_model(b).ustar == Some(
            UStarFields {
                magic: "ustar\0"@,
                version: "00"@,
                uname: text_at(b.skip(265), 32),
                gname: text_at(b.skip(297), 32),
                devmajor: number_at(b.skip(329), 8),
                devminor: number_at(b.skip(337), 8),
                prefix: text_at(b.skip(345), 155),
            },
        ),
        b.subrange(257, 263) != ustar_magic() ==> header_model(b).ustar is None,
{
    let t = b.subrange(257, 512);
    let u = t.skip(6);
    assert(t.take(6) =~= b.subrange(257, 263));
    assert(u.take(2) =~= b.subrange(263, 265));
    if b.subrange(257, 265) == ustar_magic() + ustar_version() {
        assert(b.subrange(257, 263) =~= b.subrange(257, 265).take(6));
        assert(b.subrange(263, 265) =~= b.subrange(257, 265).skip(6));
        assert((ustar_magic() + ustar_version()).take(6) =~= ustar_magic());
        assert((ustar_magic() + ustar_version()).skip(6) =~= ustar_version());
    }
    assert(u.skip(2).take(32) =~= b.skip(265).take(32));
    assert(u.skip(34).take(32) =~= b.skip(297).take(32));
    assert(u.skip(66).take(8) =~= b.skip(329).take(8));
    assert(u.skip(74).take(8) =~= b.skip(337).take(8));
    assert(u.skip(82).take(155) =~= b.skip(345).take(155));
}

/// Reads the text slot of `w` bytes at offset `off` of `i`.
fn take_text<'a>(i: &'a [u8], off: usize, w: usize) -> (r: Result<&'a str, DecodeError>)
    requires
        off + w <= i@.len(),
    ensures
        r is Err <==> text_error(i@.skip(off as int), w as int) is Some,
        r matches Err(e) ==> at(text_error(i@.skip(off as int), w as int), off as nat) == Some(
            e.spec_pair(),
        ),
        r matches Ok(s) ==> s.spec_bytes() == text_at(i@.skip(off as int), w as int),
{
    match take_str_eat_garbage(slice_subrange(i, off, i.len()), w) {
        Ok((_, s)) => Ok(s),
        Err(k) => Err(DecodeError { kind: k, offset: off }),
    }
}

/// Reads the octal slot of `w` bytes at offset `off` of `i`.
fn take_octal(i: &[u8], off: usize, w: usize) -> (r: Result<u64, DecodeError>)
    requires
        off + w <= i@.len(),
        w <= 12,
    ensures
        r is Err <==> number_error(i@.skip(off as int), w as int) is Some,
        r matches Err(e) ==> at(number_error(i@.skip(off as int), w as int), off as nat) == Some(
            e.spec_pair(),
        ),
        r matches Ok(v) ==> v as nat == number_at(i@.skip(off as int), w as int),
{
    let s = take_text(i, off, w)?;
    proof {
        let t = i@.skip(off as int);
        lemma_text_end_bound(t.take(w as int));
        if all_octal(text_at(t, w as int)) {
            lemma_short_octal_fits(text_at(t, w as int));
        }
    }
    match octal_to_u64(s) {
        Ok(v) => Ok(v),
        Err(_) => Err(DecodeError { kind: TarError::InvalidOctalDigit, offset: off }),
    }
}

/// Reads the extension record from the bytes that follow its magic; `None`
/// when the version is not `"00"` or a field fails to decode.
fn parse_ustar00<'a>(u: &'a [u8]) -> (r: Option<UStarHeader<'a>>)
    requires
        u@.len() >= 249,
    ensures
        ustar_view(r) == ustar00_model(u@),
{
    if u[0] != 48 || u[1] != 48 {
        return None;
    }
    assert(u@.take(2) =~= ustar_version());
    let uname = match take_text(u, 2, 32) {
        Ok(s) => s,
        Err(_) => return None,
    };
    let gname = match take_text(u, 34, 32) {
        Ok(s) => s,
        Err(_) => return None,
    };
    let devmajor = match take_octal(u, 66, 8) {
        Ok(v) => v,
        Err(_) => return None,
    };
    let devminor = match take_octal(u, 74, 8) {
        Ok(v) => v,
        Err(_) => return None,
    };
    let prefix = match take_text(u, 82, 155) {
        Ok(s) => s,
        Err(_) => return None,
    };
    Some(
        UStarHeader {
            magic: "ustar\0",
            version: "00",
            uname: uname,
            gname: gname,
            devmajor: devmajor,
            devminor: devminor,
            prefix: prefix,
        },
    )
}

/// Reads the extension record from the last 255 bytes of a header; `None`
/// when they do not open with `"ustar\0"` or do not decode as a record.
fn parse_ustar<'a>(t: &'a [u8]) -> (r: Option<UStarHeader<'a>>)
    requires
        t@.len() == 255,
    ensures
        ustar_view(r) == ustar_model(t@),
{
    if t[0] != 117 || t[1] != 115 || t[2] != 116 || t[3] != 97 || t[4] != 114 || t[5] != 0 {
        assert(t@.take(6) != ustar_magic()) by {
            if t@.take(6) == ustar_magic() {
                assert(t@.take(6)[0] == 117u8);
            }
        }
        return None;
    }
    assert(t@.take(6) =~= ustar_magic());
    parse_ustar00(slice_subrange(t, 6, t.len()))
}

/// Decodes the header record at the start of `i` and returns the bytes that
/// follow it.
///
/// The extension record is present exactly when the bytes from offset 257
/// open with `"ustar\0"` and decode as one; otherwise those 255 bytes are
/// passed over as padding. Any other field that fails to decode fails the
/// header.
pub fn parse_header<'a>(i: &'a [u8]) -> (r: Result<(&'a [u8], PosixHeader<'a>), DecodeError>)
    ensures
        r is Err <==> header_error(i@) is Some,
        r matches Err(e) ==> header_error(i@) == Some(e.spec_pair()),
        r matches Ok((rest, h)) ==> rest@ == i@.skip(512) && h@ == header_model(i@),
{
    if i.len() < BLOCK_SIZE {
        return Err(DecodeError { kind: TarError::UnexpectedEndOfInput, offset: 0 });
    }
    assert(i@.skip(0) =~= i@);
    let name = take_text(i, 0, 100)?;
    let mode = take_text(i, 100, 8)?;
    let uid = take_octal(i, 108, 8)?;
    let gid = take_octal(i, 116, 8)?;
    let size = take_octal(i, 124, 12)?;
    let mtime = take_octal(i, 136, 12)?;
    let chksum = take_text(i, 148, 8)?;
    let typeflag = char_to_type_flag(i[156] as char);
    let linkname = take_text(i, 157, 100)?;
    let ustar = parse_ustar(slice_subrange(i, 257, BLOCK_SIZE));
    Ok(
        (
            slice_subrange(i, BLOCK_SIZE, i.len()),
            PosixHeader {
                name: name,
                mode: mode,
                uid: uid,
                gid: gid,
                size: size,
                mtime: mtime,
                chksum: chksum,
                typeflag: typeflag,
                linkname: linkname,
                ustar: ustar,
            },
        ),
    )
}

} // verus!
