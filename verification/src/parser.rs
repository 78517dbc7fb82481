//! Parsers for the headers of a ZIP archive. Each takes a run of bytes that
//! starts at the header and gives the record and the bytes behind it, or
//! says why there is no header here.

use crate::bytes::{le16, le32, read_le16, read_le32};
use crate::calendar::{
    civil_to_unix, dos_civil, dos_date_valid, dos_day, dos_hour, dos_minute, dos_month,
    dos_second, dos_time_valid, dos_year, lemma_unix_seconds_nonneg, CivilTime,
};
use crate::chunks::{
    cd_magic, dd_magic, eocd_magic, lf_magic, CdView, EocdView, LfView, ZipFlags, CD, DD, EOCD,
    LF,
};
use vstd::prelude::*;
use vstd::slice::{slice_subrange, slice_to_vec};
use vstd::utf8::{decode_utf8, valid_utf8};

verus! {

/// Why a run of bytes is not the header that was looked for.
#[derive(Clone, Copy, Debug, PartialEq, Eq, Structural)]
pub enum ParseError {
    /// The bytes do not start with the header's magic.
    BadMagic,
    /// The bytes end before the header does.
    Incomplete,
    /// The DOS time or date holds no time of day or no day of the calendar.
    BadDateTime,
    /// A name or comment is not UTF-8.
    BadText,
}

/// `b` starts with the four bytes `magic`.
pub open spec fn has_magic(b: Seq<u8>, magic: Seq<u8>) -> bool {
    b.len() >= 4 && b.subrange(0, 4) == magic
}

/// What is left of `b` behind its first `n` bytes: nothing where it has
/// fewer.
pub open spec fn rest_of(b: Seq<u8>, n: int) -> Seq<u8> {
    if 0 <= n <= b.len() {
        b.subrange(n, b.len() as int)
    } else {
        Seq::empty()
    }
}

/// The time of day in the DOS time word at the start of `b`, and the number
/// of bytes read.
pub open spec fn spec_parse_dostime(b: Seq<u8>) -> Result<((u32, u32, u32), int), ParseError> {
    if b.len() < 2 {
        Err(ParseError::Incomplete)
    } else if !dos_time_valid(le16(b, 0)) {
        Err(ParseError::BadDateTime)
    } else {
        let t = le16(b, 0);
        Ok(((dos_hour(t), dos_minute(t), dos_second(t)), 2))
    }
}

/// The year, month and day in the DOS date word at the start of `b`, and
/// the number of bytes read.
pub open spec fn spec_parse_dosdate(b: Seq<u8>) -> Result<((i32, u32, u32), int), ParseError> {
    if b.len() < 2 {
        Err(ParseError::Incomplete)
    } else if !dos_date_valid(le16(b, 0)) {
        Err(ParseError::BadDateTime)
    } else {
        let d = le16(b, 0);
        Ok(((dos_year(d), dos_month(d), dos_day(d)), 2))
    }
}

/// The seconds since 1970, cut to 32 bits, of the time that a DOS time word
/// and a DOS date word hold.
pub open spec fn dos_epoch(t: u16, d: u16) -> u32 {
    (dos_civil(t, d).unix_seconds() % 0x1_0000_0000) as u32
}

/// The seconds since 1970 of the DOS time and date words at the start of
/// `b`, and the number of bytes read. The time word is looked at first.
pub open spec fn spec_parse_dosdatetime(b: Seq<u8>) -> Result<(u32, int), ParseError> {
    match spec_parse_dostime(b) {
        Err(e) => Err(e),
        Ok(_) => match spec_parse_dosdate(rest_of(b, 2)) {
            Err(e) => Err(e),
            Ok(_) => if dos_civil(le16(b, 0), le16(b, 2)).wf() {
                Ok((dos_epoch(le16(b, 0), le16(b, 2)), 4))
            } else {
                Err(ParseError::BadDateTime)
            },
        },
    }
}

/// The checksum and sizes that stand at `at` in `b`.
pub open spec fn dd_at(b: Seq<u8>, at: int) -> DD {
    DD { crc32: le32(b, at), z_sz: le32(b, at + 4), u_sz: le32(b, at + 8) }
}

/// The data descriptor at the start of `b`, with or without its magic, and
/// the number of bytes read.
pub open spec fn spec_parse_dd(b: Seq<u8>) -> Result<(DD, int), ParseError> {
    let skip: int = if has_magic(b, dd_magic()) {
        4
    } else {
        0
    };
    if b.len() < skip + 12 {
        Err(ParseError::Incomplete)
    } else {
        Ok((dd_at(b, skip), skip + 12))
    }
}

/// The end of central directory record at the start of `b`, and the number
/// of bytes read.
pub open spec fn spec_parse_eocd(b: Seq<u8>) -> Result<(EocdView, int), ParseError> {
    if !has_magic(b, eocd_magic()) {
        Err(ParseError::BadMagic)
    } else if b.len() < 22 || b.len() < 22 + le16(b, 20) {
        Err(ParseError::Incomplete)
    } else if !valid_utf8(b.subrange(22, 22 + le16(b, 20))) {
        Err(ParseError::BadText)
    } else {
        Ok(
            (
                EocdView {
                    dsk_no: le16(b, 4),
                    dsk_w_cd: le16(b, 6),
                    dsk_entries: le16(b, 8),
                    tot_entries: le16(b, 10),
                    cd_sz: le32(b, 12),
                    cd_offset: le32(b, 16),
                    cmt_len: le16(b, 20),
                    zip_cmt: decode_utf8(b.subrange(22, 22 + le16(b, 20))),
                },
                22 + le16(b, 20),
            ),
        )
    }
}

/// The central directory header at the start of `b`, and the number of
/// bytes read. Checksum and sizes stand in it without magic.
pub open spec fn spec_parse_cd(b: Seq<u8>) -> Result<(CdView, int), ParseError> {
    if !has_magic(b, cd_magic()) {
        Err(ParseError::BadMagic)
    } else if b.len() < 12 {
        Err(ParseError::Incomplete)
    } else {
        match spec_parse_dosdatetime(rest_of(b, 12)) {
            Err(e) => Err(e),
            Ok((timestamp, _)) => if b.len() < 46 || b.len() < 46 + le16(b, 28) {
                Err(ParseError::Incomplete)
            } else if !valid_utf8(b.subrange(46, 46 + le16(b, 28))) {
                Err(ParseError::BadText)
            } else {
                Ok(
                    (
                        CdView {
                            v_made_by: le16(b, 4),
                            v_needed: le16(b, 6),
                            gp_flags: ZipFlags { bits: le16(b, 8) },
                            method: le16(b, 10),
                            timestamp,
                            dd: dd_at(b, 16),
                            fn_len: le16(b, 28),
                            ef_len: le16(b, 30),
                            fc_len: le16(b, 32),
                            dsk_no_s: le16(b, 34),
                            int_attr: le16(b, 36),
                            ext_attr: le32(b, 38),
                            lf_offset: le32(b, 42),
                            filename: decode_utf8(b.subrange(46, 46 + le16(b, 28))),
                        },
                        46 + le16(b, 28),
                    ),
                )
            },
        }
    }
}

/// The local file header at the start of `b`, and the number of bytes read.
/// Checksum and sizes stand in it without magic; the extra field is not
/// read.
pub open spec fn spec_parse_lf(b: Seq<u8>) -> Result<(LfView, int), ParseError> {
    if !has_magic(b, lf_magic()) {
        Err(ParseError::BadMagic)
    } else if b.len() < 10 {
        Err(ParseError::Incomplete)
    } else {
        match spec_parse_dosdatetime(rest_of(b, 10)) {
            Err(e) => Err(e),
            Ok((timestamp, _)) => if b.len() < 30 || b.len() < 30 + le16(b, 26) {
                Err(ParseError::Incomplete)
            } else if !valid_utf8(b.subrange(30, 30 + le16(b, 26))) {
                Err(ParseError::BadText)
            } else {
                Ok(
                    (
                        LfView {
                            v_needed: le16(b, 4),
                            gp_flags: ZipFlags { bits: le16(b, 6) },
                            method: le16(b, 8),
                            timestamp,
                            dd: dd_at(b, 14),
                            fn_len: le16(b, 26),
                            ef_len: le16(b, 28),
                            filename: decode_utf8(b.subrange(30, 30 + le16(b, 26))),
                        },
                        30 + le16(b, 26),
                    ),
                )
            },
        }
    }
}

/// std's `String::from_utf8`.
///
/// Trusted: a string comes exactly where the bytes are UTF-8, and it holds
/// the characters that they spell.
#[verifier::external_body]
fn text_of(bytes: Vec<u8>) -> (r: Option<String>)
    ensures
        r.is_some() <==> valid_utf8(bytes@),
        r matches Some(s) ==> s@ == decode_utf8(bytes@),
{
    match String::from_utf8(bytes) {
        Ok(s) => Some(s),
        Err(_) => None,
    }
}

/// Whether `input` starts with `P`, `K` and the two bytes given.
fn starts_with_magic(input: &[u8], third: u8, fourth: u8) -> (b: bool)
    ensures
        b == has_magic(input@, seq![0x50u8, 0x4bu8, third, fourth]),
{
    let b = input.len() >= 4 && input[0] == 0x50 && input[1] == 0x4b && input[2] == third
        && input[3] == fourth;
    proof {
        if input@.len() >= 4 {
            let m = seq![0x50u8, 0x4bu8, third, fourth];
            if b {
                assert(input@.subrange(0, 4) =~= m);
            } else {
                assert(input@.subrange(0, 4)[0] == input@[0]);
                assert(input@.subrange(0, 4)[1] == input@[1]);
                assert(input@.subrange(0, 4)[2] == input@[2]);
                assert(input@.subrange(0, 4)[3] == input@[3]);
            }
        }
    }
    b
}

/// The text of `len` bytes that stands at `at` in `input`.
fn read_text(input: &[u8], at: usize, len: usize) -> (r: Option<String>)
    requires
        at + len <= input.len(),
    ensures
        r.is_some() <==> valid_utf8(input@.subrange(at as int, at + len)),
        r matches Some(s) ==> s@ == decode_utf8(input@.subrange(at as int, at + len)),
{
    text_of(slice_to_vec(slice_subrange(input, at, at + len)))
}

/// Reads checksum and sizes at `at`.
fn read_dd(input: &[u8], at: usize) -> (dd: DD)
    requires
        at + 12 <= input.len(),
    ensures
        dd == dd_at(input@, at as int),
{
    DD {
        crc32: read_le32(input, at),
        z_sz: read_le32(input, at + 4),
        u_sz: read_le32(input, at + 8),
    }
}

/// Parses an MS-DOS time word into hour, minute and second.
///
/// Fails with `BadDateTime` on an hour of 24 or more, a minute of 60 or
/// more, or a second of 60 or more.
pub fn parse_dostime<'a>(input: &'a [u8]) -> (r: Result<(&'a [u8], (u32, u32, u32)), ParseError>)
    ensures
        match spec_parse_dostime(input@) {
            Ok((hms, n)) => r matches Ok((rest, v)) && v == hms && rest@ == rest_of(input@, n),
            Err(e) => r matches Err(f) && f == e,
        },
        r.is_ok() <==> input@.len() >= 2 && dos_time_valid(le16(input@, 0)),
{
    if input.len() < 2 {
        return Err(ParseError::Incomplete);
    }
    let t: u16 = read_le16(input, 0);
    let h: u32 = ((t >> 11) & 0x1f) as u32;
    let m: u32 = ((t >> 5) & 0x3f) as u32;
    let low: u16 = t & 0x1f;
    assert(low < 32) by (bit_vector)
        requires
            low == t & 0x1f,
    ;
    let s: u32 = (2 * low) as u32;
    if h < 24 && m < 60 && s < 60 {
        Ok((slice_subrange(input, 2, input.len()), (h, m, s)))
    } else {
        Err(ParseError::BadDateTime)
    }
}

/// Parses an MS-DOS date word into year, month and day.
///
/// Fails with `BadDateTime` on a year before 1970, a month outside 1 to 12,
/// or a day outside 1 to 31.
pub fn parse_dosdate<'a>(input: &'a [u8]) -> (r: Result<(&'a [u8], (i32, u32, u32)), ParseError>)
    ensures
        match spec_parse_dosdate(input@) {
            Ok((ymd, n)) => r matches Ok((rest, v)) && v == ymd && rest@ == rest_of(input@, n),
            Err(e) => r matches Err(f) && f == e,
        },
        r.is_ok() <==> input@.len() >= 2 && dos_date_valid(le16(input@, 0)),
{
    if input.len() < 2 {
        return Err(ParseError::Incomplete);
    }
    let d: u16 = read_le16(input, 0);
    let high: u16 = (d >> 9) & 0x7f;
    assert(high < 128) by (bit_vector)
        requires
            high == (d >> 9) & 0x7f,
    ;
    let y: i32 = (high + 1980) as i32;
    let m: u32 = ((d >> 5) & 0x0f) as u32;
    let day: u32 = (d & 0x1f) as u32;
    if y >= 1970 && 1 <= m && m <= 12 && 1 <= day && day <= 31 {
        Ok((slice_subrange(input, 2, input.len()), (y, m, day)))
    } else {
        Err(ParseError::BadDateTime)
    }
}

/// Parses an MS-DOS time word and date word into seconds since 1970, cut to
/// 32 bits.
///
/// Fails with `BadDateTime` where either word fails, and where the day does
/// not exist in its month.
pub fn parse_dosdatetime<'a>(input: &'a [u8]) -> (r: Result<(&'a [u8], u32), ParseError>)
    ensures
        match spec_parse_dosdatetime(input@) {
            Ok((ts, n)) => r matches Ok((rest, v)) && v == ts && rest@ == rest_of(input@, n),
            Err(e) => r matches Err(f) && f == e,
        },
{
    let (after_time, hms) = match parse_dostime(input) {
        Ok(v) => v,
        Err(e) => { return Err(e); },
    };
    let (after_date, ymd) = match parse_dosdate(after_time) {
        Ok(v) => v,
        Err(e) => { return Err(e); },
    };
    assert(le16(rest_of(input@, 2), 0) == le16(input@, 2));
    let c = CivilTime {
        year: ymd.0,
        month: ymd.1,
        day: ymd.2,
        hour: hms.0,
        minute: hms.1,
        second: hms.2,
    };
    assert(c == dos_civil(le16(input@, 0), le16(input@, 2)));
    assert(c.year <= 2107) by {
        let d = le16(input@, 2);
        assert((d >> 9) & 0x7f < 128) by (bit_vector);
    }
    match civil_to_unix(c) {
        Some(secs) => {
            proof {
                lemma_unix_seconds_nonneg(c);
            }
            let ts: u32 = (secs % 0x1_0000_0000) as u32;
            assert(after_date@ =~= rest_of(input@, 4));
            Ok((after_date, ts))
        },
        None => Err(ParseError::BadDateTime),
    }
}

/// Parses a data descriptor, which may or may not start with its magic.
pub fn parse_dd<'a>(input: &'a [u8]) -> (r: Result<(&'a [u8], DD), ParseError>)
    ensures
        match spec_parse_dd(input@) {
            Ok((dd, n)) => r matches Ok((rest, v)) && v == dd && rest@ == rest_of(input@, n),
            Err(e) => r matches Err(f) && f == e,
        },
{
    let skip: usize = if starts_with_magic(input, 0x07, 0x08) {
        4
    } else {
        0
    };
    if input.len() < skip + 12 {
        return Err(ParseError::Incomplete);
    }
    let dd = read_dd(input, skip);
    Ok((slice_subrange(input, skip + 12, input.len()), dd))
}

/// Parses an end of central directory record.
///
/// Succeeds exactly where the bytes start with the magic `50 4B 05 06`, hold
/// the 22 bytes of the fixed part and the comment whose length it gives, and
/// the comment is UTF-8.
pub fn parse_eocd<'a>(input: &'a [u8]) -> (r: Result<(&'a [u8], EOCD), ParseError>)
    ensures
        match spec_parse_eocd(input@) {
            Ok((v, n)) => r matches Ok((rest, e)) && e@ == v && rest@ == rest_of(input@, n),
            Err(e) => r matches Err(f) && f == e,
        },
        r.is_ok() <==> has_magic(input@, eocd_magic()) && input@.len() >= 22 && input@.len() >= 22
            + le16(input@, 20) && valid_utf8(input@.subrange(22, 22 + le16(input@, 20))),
{
    if !starts_with_magic(input, 0x05, 0x06) {
        return Err(ParseError::BadMagic);
    }
    if input.len() < 22 {
        return Err(ParseError::Incomplete);
    }
    let cmt_len: u16 = read_le16(input, 20);
    let end: usize = 22 + cmt_len as usize;
    if input.len() < end {
        return Err(ParseError::Incomplete);
    }
    let zip_cmt = match read_text(input, 22, cmt_len as usize) {
        Some(s) => s,
        None => { return Err(ParseError::BadText); },
    };
    let eocd = EOCD {
        dsk_no: read_le16(input, 4),
        dsk_w_cd: read_le16(input, 6),
        dsk_entries: read_le16(input, 8),
        tot_entries: read_le16(input, 10),
        cd_sz: read_le32(input, 12),
        cd_offset: read_le32(input, 16),
        cmt_len,
        zip_cmt,
    };
    Ok((slice_subrange(input, end, input.len()), eocd))
}

/// Parses a central directory header.
pub fn parse_cd<'a>(input: &'a [u8]) -> (r: Result<(&'a [u8], CD), ParseError>)
    ensures
        match spec_parse_cd(input@) {
            Ok((v, n)) => r matches Ok((rest, cd)) && cd@ == v && rest@ == rest_of(input@, n),
            Err(e) => r matches Err(f) && f == e,
        },
{
    if !starts_with_magic(input, 0x01, 0x02) {
        return Err(ParseError::BadMagic);
    }
    if input.len() < 12 {
        return Err(ParseError::Incomplete);
    }
    let timestamp: u32 = match parse_dosdatetime(slice_subrange(input, 12, input.len())) {
        Ok((_, ts)) => ts,
        Err(e) => { return Err(e); },
    };
    if input.len() < 46 {
        return Err(ParseError::Incomplete);
    }
    let fn_len: u16 = read_le16(input, 28);
    let end: usize = 46 + fn_len as usize;
    if input.len() < end {
        return Err(ParseError::Incomplete);
    }
    let filename = match read_text(input, 46, fn_len as usize) {
        Some(s) => s,
        None => { return Err(ParseError::BadText); },
    };
    let cd = CD {
        v_made_by: read_le16(input, 4),
        v_needed: read_le16(input, 6),
        gp_flags: ZipFlags::from_bits_retain(read_le16(input, 8)),
        method: read_le16(input, 10),
        timestamp,
        dd: read_dd(input, 16),
        fn_len,
        ef_len: read_le16(input, 30),
        fc_len: read_le16(input, 32),
        dsk_no_s: read_le16(input, 34),
        int_attr: read_le16(input, 36),
        ext_attr: read_le32(input, 38),
        lf_offset: read_le32(input, 42),
        filename,
    };
    Ok((slice_subrange(input, end, input.len()), cd))
}

/// Parses a local file header.
pub fn parse_lf<'a>(input: &'a [u8]) -> (r: Result<(&'a [u8], LF), ParseError>)
    ensures
        match spec_parse_lf(input@) {
            Ok((v, n)) => r matches Ok((rest, lf)) && lf@ == v && rest@ == rest_of(input@, n),
            Err(e) => r matches Err(f) && f == e,
        },
{
    if !starts_with_magic(input, 0x03, 0x04) {
        return Err(ParseError::BadMagic);
    }
    if input.len() < 10 {
        return Err(ParseError::Incomplete);
    }
    let timestamp: u32 = match parse_dosdatetime(slice_subrange(input, 10, input.len())) {
        Ok((_, ts)) => ts,
        Err(e) => { return Err(e); },
    };
    if input.len() < 30 {
        return Err(ParseError::Incomplete);
    }
    let fn_len: u16 = read_le16(input, 26);
    let end: usize = 30 + fn_len as usize;
    if input.len() < end {
        return Err(ParseError::Incomplete);
    }
    let filename = match read_text(input, 30, fn_len as usize) {
        Some(s) => s,
        None => { return Err(ParseError::BadText); },
    };
    let lf = LF {
        v_needed: read_le16(input, 4),
        gp_flags: ZipFlags::from_bits_retain(read_le16(input, 6)),
        method: read_le16(input, 8),
        timestamp,
        dd: read_dd(input, 14),
        fn_len,
        ef_len: read_le16(input, 28),
        filename,
    };
    Ok((slice_subrange(input, end, input.len()), lf))
}

} // verus!
