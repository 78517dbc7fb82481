use zipdefrag::analysis::Vectorizable;
use zipdefrag::calendar::dostime_to_bytes;
use zipdefrag::chunks::{ZipFlags, DATA_DESCRIPTOR, DD, LF, UTF};
use zipdefrag::parser::{
    parse_cd, parse_dd, parse_dosdate, parse_dosdatetime, parse_dostime, parse_eocd, parse_lf,
    ParseError,
};

#[test]
fn dostimestamp() {
    let raw_dostimestamp = b"\x69\x8c\x9d\x48";
    let (_, parsed) = parse_dosdatetime(raw_dostimestamp).unwrap();
    let expected = chrono::NaiveDate::from_ymd_opt(2016, 4, 29)
        .unwrap()
        .and_hms_opt(17, 35, 18)
        .unwrap()
        .and_utc()
        .timestamp() as u32;

    assert_eq!(parsed, expected);
}

#[test]
fn eocd_test() {
    let raw_eocd = b"PK\x05\x06\x00\x00\x00\x00\x9c\x03\x9c\x03\xbf\
                       \xdb\x00\x00\nm\t\x00\x00\x00\xff\xff\xff\xff\
                       \xff\xff\xff\xff\xff\xff\xff\xff\xff\xff\xff\
                       \xff\xff\xff\xff\xff\xff\xff\xff\xff\xff\xff\
                       \xff\xff\xff\xff\xff\xff\xff\xff\xff\xff\xff\xff";

    let (_, parsed) = parse_eocd(raw_eocd).unwrap();
    assert_eq!(parsed.tot_entries, 924); // Zip file has 924 records
}

#[test]
fn cd_headertest() {
    // raw cd data
    let raw_cd = b"PK\x01\x02\x14\x00\x14\x00\x08\x08\x08\x00i\x8c\
                   \x9dH\x1f\xcd]z/\x11\x00\x00,'\x00\x00\x07\x00\
                   \x00\x00\x00\x00\x00\x00\x00\x00\x00\x00\x00\x00\
                   \xd1\x02\x00\x00b.classPK\x01\x02\x14\x00\x14";

    let (_, parsed) = parse_cd(raw_cd).unwrap();
    assert_eq!(parsed.filename, "b.class".to_string());
}

#[test]
fn lf_headertest() {
    let raw_lf = b"PK\x03\x04\n\x00\x00\x08\x08\x00N\x83EIRa\xe7Sh\
                   \x00\x00\x00u\x00\x00\x00\x08\x00\x00\x00bc.cla\
                   ss;\xf5o\xd7>\x06\x06\x06\x03\x06.v\x06\x0ev\x06\
                   N.\x06&\x06\x16";
    let (_, parsed) = parse_lf(raw_lf).unwrap();
    assert_eq!(parsed.filename, "bc.class".to_string());
}

#[test]
fn dostimestamp_exact_value() {
    let (rest, parsed) = parse_dosdatetime(b"\x69\x8c\x9d\x48rest").unwrap();
    assert_eq!(parsed, 1461951318);
    assert_eq!(rest, b"rest");
}

#[test]
fn dostime_fields() {
    let (rest, hms) = parse_dostime(b"\x69\x8c\x9d").unwrap();
    assert_eq!(hms, (17, 35, 18));
    assert_eq!(rest, b"\x9d");
    let (rest, ymd) = parse_dosdate(b"\x9d\x48").unwrap();
    assert_eq!(ymd, (2016, 4, 29));
    assert!(rest.is_empty());
}

#[test]
fn dostime_rejects_what_is_no_time() {
    // hour 24, minute 60, second 60
    assert_eq!(parse_dostime(b"\x00\xc0"), Err(ParseError::BadDateTime));
    assert_eq!(parse_dostime(b"\x80\x07"), Err(ParseError::BadDateTime));
    assert_eq!(parse_dostime(b"\x1e\x00"), Err(ParseError::BadDateTime));
    // 23:59:58 is the last time of a day
    assert_eq!(parse_dostime(b"\x7d\xbf").unwrap().1, (23, 59, 58));
    assert_eq!(parse_dostime(b"\x00"), Err(ParseError::Incomplete));
    assert_eq!(parse_dostime(b""), Err(ParseError::Incomplete));
}

#[test]
fn dosdate_rejects_what_is_no_date() {
    // month 0, month 13, day 0
    assert_eq!(parse_dosdate(b"\x01\x48"), Err(ParseError::BadDateTime));
    assert_eq!(parse_dosdate(b"\xa1\x49"), Err(ParseError::BadDateTime));
    assert_eq!(parse_dosdate(b"\x20\x48"), Err(ParseError::BadDateTime));
    // the year field counts from 1980, so no year is before 1970
    assert_eq!(parse_dosdate(b"\x21\x00").unwrap().1, (1980, 1, 1));
    assert_eq!(parse_dosdate(b"\x9f\xff").unwrap().1, (2107, 12, 31));
    assert_eq!(parse_dosdate(b"\x21"), Err(ParseError::Incomplete));
}

#[test]
fn dosdatetime_rejects_a_day_that_is_not_in_the_calendar() {
    // 30 February 2016 passes as a date word
    assert_eq!(parse_dosdate(b"\x5e\x48").unwrap().1, (2016, 2, 30));
    assert_eq!(parse_dosdatetime(b"\x00\x00\x5e\x48"), Err(ParseError::BadDateTime));
    // 29 February exists in 2016 and not in 2017
    assert_eq!(parse_dosdatetime(b"\x00\x00\x5d\x48").unwrap().1, 1456704000);
    assert_eq!(parse_dosdatetime(b"\x00\x00\x5d\x4a"), Err(ParseError::BadDateTime));
    assert_eq!(parse_dosdatetime(b"\x00\x00\x5d"), Err(ParseError::Incomplete));
    assert_eq!(parse_dosdatetime(b"\x00\xc0\x5d\x48"), Err(ParseError::BadDateTime));
}

#[test]
fn dosdatetime_is_cut_to_32_bits() {
    // 1 January 1980, the first day that a date word can hold
    assert_eq!(parse_dosdatetime(b"\x00\x00\x21\x00").unwrap().1, 315532800);
    // 7 February 2106, 06:28:14: the last even second within 32 bits
    assert_eq!(parse_dosdatetime(b"\x87\x33\x47\xfc").unwrap().1, 4294967294);
    // 31 December 2107, 23:59:58 lies 4354819198 seconds after 1970
    assert_eq!(parse_dosdatetime(b"\x7d\xbf\x9f\xff").unwrap().1, 59851902);
}

#[test]
fn dos_words_come_back_from_their_seconds() {
    for raw in [b"\x69\x8c\x9d\x48", b"N\x83EI", b"\x00\x00\x21\x00", b"\x87\x33\x47\xfc"] {
        let (_, ts) = parse_dosdatetime(raw).unwrap();
        assert_eq!(&dostime_to_bytes(ts), raw);
    }
    assert_eq!(dostime_to_bytes(1461951318), [0x69, 0x8c, 0x9d, 0x48]);
    // an odd second is rounded down
    assert_eq!(dostime_to_bytes(1461951319), [0x69, 0x8c, 0x9d, 0x48]);
    // before 1980 the seven bits of the year wrap: 1970 is written as 118
    assert_eq!(dostime_to_bytes(0), [0x00, 0x00, 0x21, 0xec]);
}

#[test]
fn eocd_fields() {
    let raw = b"PK\x05\x06\x01\x00\x02\x00\x03\x00\x04\x00\x05\x00\x00\x00\x06\x00\x00\x00\x02\x00hi!";
    let (rest, e) = parse_eocd(raw).unwrap();
    assert_eq!(
        (e.dsk_no, e.dsk_w_cd, e.dsk_entries, e.tot_entries, e.cd_sz, e.cd_offset, e.cmt_len),
        (1, 2, 3, 4, 5, 6, 2)
    );
    assert_eq!(e.zip_cmt, "hi");
    assert_eq!(rest, b"!");
}

#[test]
fn eocd_succeeds_exactly_with_magic_and_length() {
    let whole = b"PK\x05\x06\x00\x00\x00\x00\x01\x00\x01\x00\x33\x00\x00\x00\x28\x00\x00\x00\x03\x00abc";
    assert!(parse_eocd(whole).is_ok());
    assert_eq!(parse_eocd(&whole[..24]), Err(ParseError::Incomplete));
    assert_eq!(parse_eocd(&whole[..21]), Err(ParseError::Incomplete));
    assert_eq!(parse_eocd(&whole[..3]), Err(ParseError::BadMagic));
    assert_eq!(parse_eocd(b""), Err(ParseError::BadMagic));
    let mut other = whole.to_vec();
    other[3] = 0x05;
    assert_eq!(parse_eocd(&other), Err(ParseError::BadMagic));
    // a comment that is not UTF-8
    let mut bad = whole.to_vec();
    bad[23] = 0xff;
    assert_eq!(parse_eocd(&bad), Err(ParseError::BadText));
}

#[test]
fn cd_fields() {
    let raw_cd = b"PK\x01\x02\x14\x00\x15\x00\x08\x08\x08\x00i\x8c\
                   \x9dH\x1f\xcd]z/\x11\x00\x00,'\x00\x00\x07\x00\
                   \x01\x00\x02\x00\x03\x00\x04\x00\x05\x00\x00\x00\
                   \xd1\x02\x00\x00b.classPK";
    let (rest, cd) = parse_cd(raw_cd).unwrap();
    assert_eq!(cd.v_made_by, 0x14);
    assert_eq!(cd.v_needed, 0x15);
    assert_eq!(cd.gp_flags, ZipFlags::from_bits_retain(0x0808));
    assert!(cd.gp_flags.contains(DATA_DESCRIPTOR));
    assert!(cd.gp_flags.contains(UTF));
    assert!(!cd.gp_flags.contains(DATA_DESCRIPTOR | 1));
    assert_eq!(cd.method, 8);
    assert_eq!(cd.timestamp, 1461951318);
    assert_eq!(cd.dd, DD { crc32: 0x7a5dcd1f, z_sz: 0x112f, u_sz: 0x272c });
    assert_eq!((cd.fn_len, cd.ef_len, cd.fc_len), (7, 1, 2));
    assert_eq!((cd.dsk_no_s, cd.int_attr, cd.ext_attr), (3, 4, 5));
    assert_eq!(cd.lf_offset, 0x2d1);
    assert_eq!(rest, b"PK");
    assert_eq!(cd.to_euclidean(), [1461951318, 8, 0x14, 0x15, 0x0808]);
}

#[test]
fn cd_failures() {
    let raw_cd = b"PK\x01\x02\x14\x00\x14\x00\x08\x08\x08\x00i\x8c\
                   \x9dH\x1f\xcd]z/\x11\x00\x00,'\x00\x00\x07\x00\
                   \x00\x00\x00\x00\x00\x00\x00\x00\x00\x00\x00\x00\
                   \xd1\x02\x00\x00b.class";
    assert!(parse_cd(raw_cd).is_ok());
    assert_eq!(parse_cd(&raw_cd[..52]).map(|r| r.1), Err(ParseError::Incomplete));
    assert_eq!(parse_cd(&raw_cd[..45]).map(|r| r.1), Err(ParseError::Incomplete));
    assert_eq!(parse_cd(&raw_cd[..11]).map(|r| r.1), Err(ParseError::Incomplete));
    assert_eq!(parse_cd(&raw_cd[1..]).map(|r| r.1), Err(ParseError::BadMagic));
    let mut late = raw_cd.to_vec();
    late[13] = 0xc0;
    assert_eq!(parse_cd(&late).map(|r| r.1), Err(ParseError::BadDateTime));
    // the time is looked at before the length
    assert_eq!(parse_cd(&late[..20]).map(|r| r.1), Err(ParseError::BadDateTime));
    let mut bad = raw_cd.to_vec();
    bad[46] = 0x80;
    assert_eq!(parse_cd(&bad).map(|r| r.1), Err(ParseError::BadText));
}

#[test]
fn unknown_flag_bits_are_kept() {
    let raw_lf = b"PK\x03\x04\n\x00\x00\x90\x08\x00N\x83EIRa\xe7Sh\
                   \x00\x00\x00u\x00\x00\x00\x01\x00\x00\x00b";
    let (_, lf) = parse_lf(raw_lf).unwrap();
    assert_eq!(lf.gp_flags.bits(), 0x9000);
    assert_eq!(lf.unparse(), raw_lf.to_vec());
}

#[test]
fn lf_fields_and_bytes() {
    let raw_lf = b"PK\x03\x04\n\x00\x00\x08\x08\x00N\x83EIRa\xe7Sh\
                   \x00\x00\x00u\x00\x00\x00\x08\x00\x00\x00bc.cla\
                   ss;\xf5o";
    let (rest, lf) = parse_lf(raw_lf).unwrap();
    assert_eq!(lf.v_needed, 10);
    assert_eq!(lf.gp_flags.bits(), UTF);
    assert_eq!(lf.method, 8);
    assert_eq!(lf.timestamp, 1475684788);
    assert_eq!(lf.dd, DD { crc32: 0x53e76152, z_sz: 0x68, u_sz: 0x75 });
    assert_eq!((lf.fn_len, lf.ef_len), (8, 0));
    assert_eq!(rest, b";\xf5o");
    // the bytes of the header are the bytes it was read from
    assert_eq!(lf.unparse(), raw_lf[..38].to_vec());
    let written = lf.unparse();
    let (rest, again) = parse_lf(&written).unwrap();
    assert_eq!(again, lf);
    assert!(rest.is_empty());
}

#[test]
fn lf_with_data_descriptor_is_written_with_zeros() {
    let lf = LF {
        v_needed: 20,
        gp_flags: ZipFlags::from_bits_retain(DATA_DESCRIPTOR),
        method: 8,
        timestamp: 1461951318,
        dd: DD { crc32: 1, z_sz: 2, u_sz: 3 },
        fn_len: 2,
        ef_len: 4,
        filename: "\u{e9}".to_string(),
    };
    assert_eq!(
        lf.unparse(),
        b"PK\x03\x04\x14\x00\x08\x00\x08\x00\x69\x8c\x9d\x48\
          \x00\x00\x00\x00\x00\x00\x00\x00\x00\x00\x00\x00\x02\x00\x04\x00\xc3\xa9"
            .to_vec()
    );
    let plain = LF { gp_flags: ZipFlags::from_bits_retain(0), ..lf };
    assert_eq!(
        plain.unparse(),
        b"PK\x03\x04\x14\x00\x00\x00\x08\x00\x69\x8c\x9d\x48\
          \x01\x00\x00\x00\x02\x00\x00\x00\x03\x00\x00\x00\x02\x00\x04\x00\xc3\xa9"
            .to_vec()
    );
    assert_eq!(plain.dd.unparse(), [1, 0, 0, 0, 2, 0, 0, 0, 3, 0, 0, 0]);
}

#[test]
fn lf_from_cd_takes_the_shared_fields() {
    let raw_cd = b"PK\x01\x02\x14\x00\x15\x00\x00\x08\x08\x00i\x8c\
                   \x9dH\x1f\xcd]z/\x11\x00\x00,'\x00\x00\x07\x00\
                   \x01\x00\x02\x00\x03\x00\x04\x00\x05\x00\x00\x00\
                   \xd1\x02\x00\x00b.class";
    let (_, cd) = parse_cd(raw_cd).unwrap();
    let lf = LF::from(&cd);
    assert_eq!(
        lf,
        LF {
            v_needed: 0x15,
            gp_flags: ZipFlags::from_bits_retain(UTF),
            method: 8,
            timestamp: 1461951318,
            dd: DD { crc32: 0x7a5dcd1f, z_sz: 0x112f, u_sz: 0x272c },
            fn_len: 7,
            ef_len: 1,
            filename: "b.class".to_string(),
        }
    );
}

#[test]
fn dd_with_and_without_magic() {
    let bare = b"\x01\x00\x00\x00\x02\x00\x00\x00\x03\x00\x00\x00xy";
    let (rest, dd) = parse_dd(bare).unwrap();
    assert_eq!(dd, DD { crc32: 1, z_sz: 2, u_sz: 3 });
    assert_eq!(rest, b"xy");
    let with = b"PK\x07\x08\x01\x00\x00\x00\x02\x00\x00\x00\x03\x00\x00\x00xy";
    let (rest, dd) = parse_dd(with).unwrap();
    assert_eq!(dd, DD { crc32: 1, z_sz: 2, u_sz: 3 });
    assert_eq!(rest, b"xy");
    assert_eq!(parse_dd(&with[..15]), Err(ParseError::Incomplete));
    assert_eq!(parse_dd(&bare[..11]), Err(ParseError::Incomplete));
    // inside a header there is no magic: these four bytes are a checksum
    let raw_lf = b"PK\x03\x04\n\x00\x00\x00\x08\x00N\x83EIPK\x07\x08\
                   \x00\x00\x00\x00u\x00\x00\x00\x01\x00\x00\x00b";
    let (_, lf) = parse_lf(raw_lf).unwrap();
    assert_eq!(lf.dd, DD { crc32: 0x08074b50, z_sz: 0, u_sz: 0x75 });
    assert_eq!(parse_lf(&lf.unparse()).unwrap().1, lf);
}

#[test]
fn writing_parsing_and_writing_again_gives_the_same_bytes() {
    // a data descriptor is announced and the sizes are not zero; the time
    // lies behind what 32 bits of seconds hold
    let raw_lf = b"PK\x03\x04\x14\x00\x08\x00\x08\x00\x7d\xbf\x9f\xff\x01\x00\x00\x00\
                   \x02\x00\x00\x00\x03\x00\x00\x00\x03\x00\x07\x00a.b";
    let (_, lf) = parse_lf(raw_lf).unwrap();
    assert_eq!(lf.timestamp, 59851902);
    let written = lf.unparse();
    assert_ne!(written, raw_lf.to_vec());
    // 24 November 1971, 17:31:42, the year written in seven bits; and
    // zeros stand for the sizes
    assert_eq!(&written[10..14], b"\xf5\x8b\x78\xef");
    assert_eq!(&written[14..26], &[0u8; 12]);
    let (rest, lf2) = parse_lf(&written).unwrap();
    assert!(rest.is_empty());
    assert_ne!(lf2, lf);
    // read again, the seven bits are the year 2099
    assert_eq!(lf2.timestamp, 4099224702);
    assert_eq!(lf2.unparse(), written);
    let (_, lf3) = parse_lf(&lf2.unparse()).unwrap();
    assert_eq!(lf3, lf2);
    // headers that are written as they were read
    for raw in [
        &b"PK\x03\x04\n\x00\x00\x08\x08\x00N\x83EIRa\xe7Sh\x00\x00\x00u\x00\x00\x00\x01\x00\x00\x00b"[..],
        &b"PK\x03\x04\n\x00\x00\x00\x00\x00\x00\x00\x21\x00\x00\x00\x00\x00\x00\x00\x00\x00\x00\x00\x00\x00\x00\x00\x09\x00"[..],
    ] {
        let (_, lf) = parse_lf(raw).unwrap();
        let written = lf.unparse();
        assert_eq!(written, raw.to_vec());
        assert_eq!(parse_lf(&written).unwrap().1.unparse(), written);
    }
}
