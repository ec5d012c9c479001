use tarparse::{
    char_to_type_flag, filter_entries, octal_to_u64, parse_contents, parse_entry, parse_header,
    parse_tar, take_str_eat_garbage, DecodeError, OctalError, TarError, TypeFlag,
};

fn put(block: &mut Vec<u8>, off: usize, bytes: &[u8]) {
    block[off..off + bytes.len()].copy_from_slice(bytes);
}

/// A 512-byte header with the given name, uid field and size field.
fn header(name: &[u8], uid: &[u8], size: &[u8], typeflag: u8) -> Vec<u8> {
    let mut b = vec![0u8; 512];
    put(&mut b, 0, name);
    put(&mut b, 100, b"0000644");
    put(&mut b, 108, uid);
    put(&mut b, 116, b"0000017");
    put(&mut b, 124, size);
    put(&mut b, 136, b"14000000000");
    put(&mut b, 148, b"0012345");
    b[156] = typeflag;
    put(&mut b, 157, b"target");
    b
}

fn ustar(mut b: Vec<u8>) -> Vec<u8> {
    put(&mut b, 257, b"ustar\0");
    put(&mut b, 263, b"00");
    put(&mut b, 265, b"alice");
    put(&mut b, 297, b"staff");
    put(&mut b, 329, b"0000003");
    put(&mut b, 337, b"0000011");
    put(&mut b, 345, b"usr/local");
    b
}

#[test]
fn octal_to_u64_ok_test() {
    assert_eq!(octal_to_u64("756"), Ok(494));
    assert_eq!(octal_to_u64(""), Ok(0));
}

#[test]
fn octal_to_u64_error_test() {
    assert_eq!(octal_to_u64("1238"), Err(OctalError::InvalidDigit('8')));
    assert_eq!(octal_to_u64("a"), Err(OctalError::InvalidDigit('a')));
    assert_eq!(octal_to_u64("A"), Err(OctalError::InvalidDigit('A')));
}

#[test]
fn take_str_eat_garbage_test() {
    let s = b"foobar\0\0\0\0baz";
    let baz = b"baz";
    assert_eq!(take_str_eat_garbage(&s[..], 10), Ok((&baz[..], "foobar")));
}

#[test]
fn octal_largest_and_overflow() {
    assert_eq!(octal_to_u64("1777777777777777777777"), Ok(u64::MAX));
    assert_eq!(octal_to_u64("2000000000000000000000"), Err(OctalError::OutOfRange));
    assert_eq!(octal_to_u64("17é9"), Err(OctalError::InvalidDigit('é')));
    assert_eq!(octal_to_u64("7 8"), Err(OctalError::InvalidDigit(' ')));
    assert_eq!(octal_to_u64("0000000000000000000000000017"), Ok(15));
    assert_eq!(octal_to_u64("77777777777"), Ok(8589934591));
}

#[test]
fn field_without_nul_fills_the_slot() {
    let s = b"abcdefXYZ";
    assert_eq!(take_str_eat_garbage(&s[..], 6), Ok((&b"XYZ"[..], "abcdef")));
    assert_eq!(take_str_eat_garbage(&s[..], 10), Err(TarError::UnexpectedEndOfInput));
    let bad = [0xffu8, 0, 0, 0];
    assert_eq!(take_str_eat_garbage(&bad[..], 4), Err(TarError::InvalidText));
}

#[test]
fn type_flags() {
    assert_eq!(char_to_type_flag('0'), TypeFlag::NormalFile);
    assert_eq!(char_to_type_flag('\0'), TypeFlag::NormalFile);
    assert_eq!(char_to_type_flag('1'), TypeFlag::HardLink);
    assert_eq!(char_to_type_flag('2'), TypeFlag::SymbolicLink);
    assert_eq!(char_to_type_flag('3'), TypeFlag::CharacterSpecial);
    assert_eq!(char_to_type_flag('4'), TypeFlag::BlockSpecial);
    assert_eq!(char_to_type_flag('5'), TypeFlag::Directory);
    assert_eq!(char_to_type_flag('6'), TypeFlag::FIFO);
    assert_eq!(char_to_type_flag('7'), TypeFlag::ContiguousFile);
    assert_eq!(char_to_type_flag('g'), TypeFlag::GlobalExtendedHeaderWithMetadata);
    assert_eq!(char_to_type_flag('x'), TypeFlag::ExtendedHeaderWithMetadataForNext);
    assert_eq!(char_to_type_flag('A'), TypeFlag::VendorSpecific);
    assert_eq!(char_to_type_flag('Z'), TypeFlag::VendorSpecific);
    assert_eq!(char_to_type_flag('8'), TypeFlag::Invalid);
    assert_eq!(char_to_type_flag('9'), TypeFlag::Invalid);
    assert_eq!(char_to_type_flag('a'), TypeFlag::Invalid);
}

#[test]
fn content_alignment() {
    let buf = vec![b'a'; 2048];
    for (size, padding) in [(0u64, 0usize), (10, 502), (512, 0), (513, 511)] {
        let (rest, c) = parse_contents(&buf, size).unwrap();
        assert_eq!(c.len(), size as usize);
        assert_eq!(buf.len() - rest.len(), size as usize + padding);
        assert_eq!((512 + size as usize + padding) % 512, 0);
    }
    assert_eq!(parse_contents(&buf[..511], 10), Err(TarError::UnexpectedEndOfInput));
    let bad = vec![0xffu8; 512];
    assert_eq!(parse_contents(&bad, 3), Err(TarError::InvalidText));
}

#[test]
fn posix_header_fields() {
    let b = header(b"hello.txt", b"0001750", b"00000000012", b'0');
    let (rest, h) = parse_header(&b).unwrap();
    assert!(rest.is_empty());
    assert_eq!(h.name, "hello.txt");
    assert_eq!(h.mode, "0000644");
    assert_eq!(h.uid, 1000);
    assert_eq!(h.gid, 15);
    assert_eq!(h.size, 10);
    assert_eq!(h.mtime, 0o14000000000);
    assert_eq!(h.chksum, "0012345");
    assert_eq!(h.typeflag, TypeFlag::NormalFile);
    assert_eq!(h.linkname, "target");
    assert_eq!(h.ustar, None);
}

#[test]
fn ustar_detection() {
    let b = ustar(header(b"dir/", b"0000000", b"00000000000", b'5'));
    let (_, h) = parse_header(&b).unwrap();
    assert_eq!(h.typeflag, TypeFlag::Directory);
    let u = h.ustar.unwrap();
    assert_eq!(u.magic, "ustar\0");
    assert_eq!(u.version, "00");
    assert_eq!(u.uname, "alice");
    assert_eq!(u.gname, "staff");
    assert_eq!(u.devmajor, 3);
    assert_eq!(u.devminor, 9);
    assert_eq!(u.prefix, "usr/local");

    let mut other = b.clone();
    put(&mut other, 263, b"01");
    assert_eq!(parse_header(&other).unwrap().1.ustar, None);
    let mut bad_dev = b.clone();
    put(&mut bad_dev, 329, b"0000009");
    assert_eq!(parse_header(&bad_dev).unwrap().1.ustar, None);
    assert!(parse_header(&b[..511]).is_err());
}

#[test]
fn one_entry_then_end_of_archive() {
    let mut a = header(b"hello.txt", b"0001750", b"00000000012", b'0');
    let mut content = b"0123456789".to_vec();
    content.resize(512, 0);
    a.extend_from_slice(&content);
    a.extend_from_slice(&[0u8; 1024]);
    let entries = parse_tar(&a).unwrap();
    assert_eq!(entries.len(), 1);
    assert_eq!(entries[0].header.name, "hello.txt");
    assert_eq!(entries[0].contents, "0123456789");

    let (rest, e) = parse_entry(&a).unwrap();
    assert_eq!(rest.len(), 1024);
    assert_eq!(e.header.size, 10);
    let kept = filter_entries(vec![e, parse_entry(rest).unwrap().1]).unwrap();
    assert_eq!(kept, vec![e]);
}

#[test]
fn bad_uid_fails_the_archive() {
    let mut a = header(b"a.txt", b"0000000", b"00000000000", b'0');
    a.extend_from_slice(&header(b"b.txt", b"00012x4", b"00000000000", b'0'));
    a.extend_from_slice(&[0u8; 1024]);
    assert_eq!(parse_tar(&a), Err(DecodeError { kind: TarError::InvalidOctalDigit, offset: 620 }));
    let mut uid_first = header(b"b.txt", b"9", b"00000000000", b'0');
    uid_first.extend_from_slice(&[0u8; 512]);
    assert_eq!(
        parse_tar(&uid_first),
        Err(DecodeError { kind: TarError::InvalidOctalDigit, offset: 108 })
    );
}

#[test]
fn empty_and_truncated_archives() {
    assert_eq!(parse_tar(&[]), Ok(vec![]));
    let a = header(b"a.txt", b"0000000", b"00000000012", b'0');
    assert_eq!(
        parse_tar(&a),
        Err(DecodeError { kind: TarError::UnexpectedEndOfInput, offset: 512 })
    );
    assert_eq!(
        parse_tar(&a[..300]),
        Err(DecodeError { kind: TarError::UnexpectedEndOfInput, offset: 0 })
    );
    let mut bad_name = header(b"a.txt", b"0000000", b"00000000000", b'0');
    bad_name[1] = 0xc3;
    assert_eq!(parse_tar(&bad_name), Err(DecodeError { kind: TarError::InvalidText, offset: 0 }));
    let mut bad_gid = header(b"a.txt", b"0000000", b"00000000000", b'0');
    put(&mut bad_gid, 116, b"8");
    assert_eq!(
        parse_header(&bad_gid).map(|(_, h)| h),
        Err(DecodeError { kind: TarError::InvalidOctalDigit, offset: 116 })
    );
    let mut bad_link = header(b"a.txt", b"0000000", b"00000000000", b'0');
    bad_link[160] = 0xfe;
    assert_eq!(
        parse_header(&bad_link).map(|(_, h)| h),
        Err(DecodeError { kind: TarError::InvalidText, offset: 157 })
    );
}

#[test]
fn two_entries_keep_their_order() {
    let mut a = header(b"first.txt", b"0000001", b"00000000003", b'0');
    let mut c1 = b"abc".to_vec();
    c1.resize(512, 0);
    a.extend_from_slice(&c1);
    a.extend_from_slice(&ustar(header(b"second", b"0000002", b"00000000000", b'5')));
    let entries = parse_tar(&a).unwrap();
    assert_eq!(entries.len(), 2);
    assert_eq!(entries[0].header.name, "first.txt");
    assert_eq!(entries[0].header.uid, 1);
    assert_eq!(entries[0].contents, "abc");
    assert_eq!(entries[1].header.name, "second");
    assert_eq!(entries[1].header.uid, 2);
    assert_eq!(entries[1].header.typeflag, TypeFlag::Directory);
    assert_eq!(entries[1].header.ustar.unwrap().uname, "alice");
    assert_eq!(entries[1].contents, "");
}
