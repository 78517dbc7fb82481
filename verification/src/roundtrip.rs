//! Writing a header and reading it back.

use crate::bytes::{
    le16, le16_bytes, le32, le32_bytes, lemma_le16_bytes_of, lemma_le16_of_bytes,
    lemma_le32_of_bytes,
};
use crate::calendar::{
    civil_of_unix, dos_bytes_of_unix, dos_civil, dos_date_valid, dos_date_word, dos_time_valid,
    dos_time_word, lemma_civil_exists, lemma_civil_of_unix, lemma_dos_civil_of_words,
    lemma_dos_date_word, lemma_dos_time_word, lemma_year_of_seconds, lemma_year_start_bounds,
};
use crate::chunks::{lf_magic, LfView, DATA_DESCRIPTOR, DD};
use crate::parser::{
    dd_at, dos_epoch, has_magic, rest_of, spec_parse_dosdatetime, spec_parse_lf, ParseError,
};
use vstd::prelude::*;
use vstd::utf8::{
    decode_utf8, decode_utf8_encode_utf8, encode_utf8, encode_utf8_decode_utf8,
    encode_utf8_valid_utf8, valid_utf8,
};

verus! {

/// The DOS time and date words at the start of `b` hold a time of the
/// calendar that is less than 2^32 seconds after the start of 1970.
pub open spec fn dos_datetime_exact(b: Seq<u8>) -> bool {
    &&& b.len() >= 4
    &&& dos_time_valid(le16(b, 0))
    &&& dos_date_valid(le16(b, 2))
    &&& dos_civil(le16(b, 0), le16(b, 2)).wf()
    &&& dos_civil(le16(b, 0), le16(b, 2)).unix_seconds() <= u32::MAX
}

/// A DOS time and date that hold a time of the calendar within 32 bits of
/// seconds parse to a count of seconds, and that count is spelt by the same
/// four bytes.
pub proof fn lemma_dos_datetime_roundtrip(b: Seq<u8>)
    requires
        dos_datetime_exact(b),
    ensures
        spec_parse_dosdatetime(b) == Ok::<(u32, int), ParseError>(
            (dos_epoch(le16(b, 0), le16(b, 2)), 4),
        ),
        dos_bytes_of_unix(dos_epoch(le16(b, 0), le16(b, 2))) == b.subrange(0, 4),
{
    let t = le16(b, 0);
    let d = le16(b, 2);
    let c = dos_civil(t, d);
    assert(le16(rest_of(b, 2), 0) == d);
    crate::calendar::lemma_unix_seconds_nonneg(c);
    let ts = dos_epoch(t, d);
    assert(ts == c.unix_seconds());
    lemma_civil_of_unix(c);
    assert(civil_of_unix(ts as int) == c);
    lemma_dos_time_word(t);
    lemma_dos_date_word(d);
    assert(dos_time_word(c) == dos_time_word(dos_civil(t, 0)));
    assert(dos_date_word(c) == dos_date_word(dos_civil(0, d)));
    lemma_le16_bytes_of(b, 0);
    lemma_le16_bytes_of(b, 2);
    assert(dos_bytes_of_unix(ts) =~= b.subrange(0, 4));
}

/// A local file header that comes back from its own bytes: its time was not
/// cut to fit 32 bits, and where its flags announce a data descriptor its
/// checksum and sizes are zero, as they are written.
pub open spec fn lf_exact(b: Seq<u8>) -> bool {
    &&& spec_parse_lf(b) is Ok
    &&& dos_civil(le16(b, 10), le16(b, 12)).unix_seconds() <= u32::MAX
    &&& spec_parse_lf(b)->Ok_0.0.gp_flags.has(DATA_DESCRIPTOR) ==> spec_parse_lf(b)->Ok_0.0.dd
        == (DD { crc32: 0, z_sz: 0, u_sz: 0 })
}

proof fn lemma_le16_at(s: Seq<u8>, at: int, v: u16)
    requires
        0 <= at,
        at + 2 <= s.len(),
        s.subrange(at, at + 2) == le16_bytes(v),
    ensures
        le16(s, at) == v,
{
    lemma_le16_of_bytes(v);
    assert(s[at] == s.subrange(at, at + 2)[0]);
    assert(s[at + 1] == s.subrange(at, at + 2)[1]);
}

proof fn lemma_le32_at(s: Seq<u8>, at: int, v: u32)
    requires
        0 <= at,
        at + 4 <= s.len(),
        s.subrange(at, at + 4) == le32_bytes(v),
    ensures
        le32(s, at) == v,
{
    lemma_le32_of_bytes(v);
    assert(s[at] == s.subrange(at, at + 4)[0]);
    assert(s[at + 1] == s.subrange(at, at + 4)[1]);
    assert(s[at + 2] == s.subrange(at, at + 4)[2]);
    assert(s[at + 3] == s.subrange(at, at + 4)[3]);
}

/// Checksum and sizes as a header's bytes hold them: zeros where the flags
/// announce a data descriptor.
pub open spec fn written_dd(lf: LfView) -> DD {
    if lf.gp_flags.has(DATA_DESCRIPTOR) {
        DD { crc32: 0, z_sz: 0, u_sz: 0 }
    } else {
        lf.dd
    }
}

/// The bytes of a header whose name has the length that the header gives,
/// and whose time is spelt by words that parse, parse to the header, with
/// the time of the words and with checksum and sizes as they are written.
/// Nothing is left behind it.
pub proof fn lemma_lf_bytes_parse(lf: LfView, again: u32)
    requires
        encode_utf8(lf.filename).len() == lf.fn_len,
        spec_parse_dosdatetime(dos_bytes_of_unix(lf.timestamp)) == Ok::<(u32, int), ParseError>(
            (again, 4),
        ),
    ensures
        spec_parse_lf(lf.bytes()) == Ok::<(LfView, int), ParseError>(
            (
                LfView { timestamp: again, dd: written_dd(lf), ..lf },
                lf.bytes().len() as int,
            ),
        ),
{
    let out = lf.bytes();
    let name = encode_utf8(lf.filename);
    let stamp = dos_bytes_of_unix(lf.timestamp);
    assert(stamp.len() == 4);
    assert(lf.dd_bytes().len() == 12);
    assert(out.len() == 30 + lf.fn_len);
    assert(out.subrange(0, 4) =~= lf_magic());
    assert(out.subrange(4, 6) =~= le16_bytes(lf.v_needed));
    assert(out.subrange(6, 8) =~= le16_bytes(lf.gp_flags.bits));
    assert(out.subrange(8, 10) =~= le16_bytes(lf.method));
    assert(out.subrange(10, 14) =~= stamp);
    assert(out.subrange(14, 26) =~= lf.dd_bytes());
    assert(out.subrange(26, 28) =~= le16_bytes(lf.fn_len));
    assert(out.subrange(28, 30) =~= le16_bytes(lf.ef_len));
    assert(out.subrange(30, 30 + lf.fn_len) =~= name);
    lemma_le16_at(out, 4, lf.v_needed);
    lemma_le16_at(out, 6, lf.gp_flags.bits);
    lemma_le16_at(out, 8, lf.method);
    lemma_le16_at(out, 26, lf.fn_len);
    lemma_le16_at(out, 28, lf.ef_len);
    let when = rest_of(out, 10);
    assert(when.subrange(0, 4) =~= stamp);
    assert(le16(when, 0) == le16(stamp, 0)) by {
        assert(when[0] == stamp[0] && when[1] == stamp[1]);
    }
    assert(le16(when, 2) == le16(stamp, 2)) by {
        assert(when[2] == stamp[2] && when[3] == stamp[3]);
    }
    assert(le16(rest_of(when, 2), 0) == le16(when, 2));
    assert(le16(rest_of(stamp, 2), 0) == le16(stamp, 2));
    assert(spec_parse_dosdatetime(when) == spec_parse_dosdatetime(stamp));
    assert(dd_at(out, 14) == written_dd(lf)) by {
        if lf.gp_flags.has(DATA_DESCRIPTOR) {
            assert(forall|i: int| 14 <= i < 26 ==> out[i] == out.subrange(14, 26)[i - 14]);
        } else {
            assert(out.subrange(14, 18) =~= le32_bytes(lf.dd.crc32));
            assert(out.subrange(18, 22) =~= le32_bytes(lf.dd.z_sz));
            assert(out.subrange(22, 26) =~= le32_bytes(lf.dd.u_sz));
            lemma_le32_at(out, 14, lf.dd.crc32);
            lemma_le32_at(out, 18, lf.dd.z_sz);
            lemma_le32_at(out, 22, lf.dd.u_sz);
        }
    }
    encode_utf8_valid_utf8(lf.filename);
    encode_utf8_decode_utf8(lf.filename);
    assert(has_magic(out, lf_magic()));
}

/// The name of a parsed header has the length that the header gives.
proof fn lemma_parsed_name(b: Seq<u8>)
    requires
        spec_parse_lf(b) is Ok,
    ensures
        encode_utf8(spec_parse_lf(b)->Ok_0.0.filename).len() == spec_parse_lf(b)->Ok_0.0.fn_len,
{
    decode_utf8_encode_utf8(b.subrange(30, 30 + le16(b, 26)));
}

/// The bytes of a header that was parsed exactly parse to the same header;
/// nothing is left behind it, the extra field not being written.
pub proof fn lemma_lf_roundtrip(b: Seq<u8>)
    requires
        lf_exact(b),
    ensures
        spec_parse_lf(spec_parse_lf(b)->Ok_0.0.bytes()) == Ok::<(LfView, int), ParseError>(
            (spec_parse_lf(b)->Ok_0.0, spec_parse_lf(b)->Ok_0.0.bytes().len() as int),
        ),
{
    let lf = spec_parse_lf(b)->Ok_0.0;
    let when = rest_of(b, 10);
    assert(le16(when, 0) == le16(b, 10));
    assert(le16(when, 2) == le16(b, 12));
    assert(dos_datetime_exact(when));
    lemma_dos_datetime_roundtrip(when);
    lemma_parsed_name(b);
    let stamp = dos_bytes_of_unix(lf.timestamp);
    assert(stamp == when.subrange(0, 4));
    assert(le16(stamp, 0) == le16(when, 0)) by {
        assert(when[0] == stamp[0] && when[1] == stamp[1]);
    }
    assert(le16(stamp, 2) == le16(when, 2)) by {
        assert(when[2] == stamp[2] && when[3] == stamp[3]);
    }
    assert(le16(rest_of(stamp, 2), 0) == le16(stamp, 2));
    assert(le16(rest_of(when, 2), 0) == le16(when, 2));
    assert(spec_parse_dosdatetime(stamp) == spec_parse_dosdatetime(when));
    lemma_lf_bytes_parse(lf, lf.timestamp);
}

/// The words that spell the seconds of a parsed time parse again, to
/// seconds that the same words spell: writing, parsing and writing again
/// gives the same four bytes, also where the seconds were cut to 32 bits.
pub proof fn lemma_dos_bytes_fixed_point(b: Seq<u8>)
    requires
        spec_parse_dosdatetime(b) is Ok,
    ensures
        ({
            let stamp = dos_bytes_of_unix(spec_parse_dosdatetime(b)->Ok_0.0);
            &&& stamp.len() == 4
            &&& spec_parse_dosdatetime(stamp) is Ok
            &&& spec_parse_dosdatetime(stamp)->Ok_0.1 == 4
            &&& dos_bytes_of_unix(spec_parse_dosdatetime(stamp)->Ok_0.0) == stamp
        }),
{
    let ts = spec_parse_dosdatetime(b)->Ok_0.0;
    let t = le16(b, 0);
    let d = le16(b, 2);
    assert(le16(rest_of(b, 2), 0) == d);
    let c0 = dos_civil(t, d);
    assert(1980 <= c0.year <= 2107) by {
        assert((d >> 9) & 0x7f < 128) by (bit_vector);
    }
    lemma_year_of_seconds(c0);
    lemma_year_start_bounds(c0.year as int);
    lemma_year_start_bounds(c0.year + 1);
    lemma_civil_exists(ts as int);
    let c = civil_of_unix(ts as int);
    lemma_year_of_seconds(c);
    lemma_year_start_bounds(c.year as int);
    if c0.unix_seconds() <= u32::MAX {
        lemma_civil_of_unix(c0);
        assert(c == c0);
    } else {
        assert(ts == c0.unix_seconds() - 0x1_0000_0000);
        assert(c.year <= 1971);
    }
    assert(!(1972 <= c.year <= 1979));
    lemma_dos_civil_of_words(c);
    let tw = dos_time_word(c);
    let dw = dos_date_word(c);
    let c2 = dos_civil(tw, dw);
    assert(c2.wf());
    assert(dos_date_valid(dw));
    lemma_year_of_seconds(c2);
    lemma_year_start_bounds(c2.year + 1);
    assert(c2.unix_seconds() <= u32::MAX) by {
        if c.year >= 1980 {
            assert(c2.day_number() == c.day_number());
            assert(c2.second_of_day() <= c.second_of_day());
        }
    }
    crate::calendar::lemma_unix_seconds_nonneg(c2);
    let stamp = dos_bytes_of_unix(ts);
    lemma_le16_of_bytes(tw);
    lemma_le16_of_bytes(dw);
    assert(le16(stamp, 0) == tw) by {
        assert(stamp[0] == le16_bytes(tw)[0] && stamp[1] == le16_bytes(tw)[1]);
    }
    assert(le16(stamp, 2) == dw) by {
        assert(stamp[2] == le16_bytes(dw)[0] && stamp[3] == le16_bytes(dw)[1]);
    }
    assert(le16(rest_of(stamp, 2), 0) == dw);
    let ts2 = dos_epoch(tw, dw);
    assert(ts2 == c2.unix_seconds());
    assert(spec_parse_dosdatetime(stamp) == Ok::<(u32, int), ParseError>((ts2, 4)));
    lemma_civil_of_unix(c2);
    lemma_dos_time_word(tw);
    lemma_dos_date_word(dw);
    assert(dos_time_word(c2) == dos_time_word(dos_civil(tw, 0)));
    assert(dos_date_word(c2) == dos_date_word(dos_civil(0, dw)));
    assert(dos_bytes_of_unix(ts2) =~= stamp);
}

/// Writing a parsed header, parsing what was written and writing that again
/// gives the same bytes, whatever the flags and the time: the second parse
/// succeeds, leaves nothing behind, and its header is written as the first.
pub proof fn lemma_lf_fixed_point(b: Seq<u8>)
    requires
        spec_parse_lf(b) is Ok,
    ensures
        ({
            let out = spec_parse_lf(b)->Ok_0.0.bytes();
            &&& spec_parse_lf(out) is Ok
            &&& spec_parse_lf(out)->Ok_0.1 == out.len()
            &&& spec_parse_lf(out)->Ok_0.0.bytes() == out
        }),
{
    let lf = spec_parse_lf(b)->Ok_0.0;
    let out = lf.bytes();
    let when = rest_of(b, 10);
    assert(spec_parse_dosdatetime(when) is Ok);
    lemma_dos_bytes_fixed_point(when);
    lemma_parsed_name(b);
    let stamp = dos_bytes_of_unix(lf.timestamp);
    let again = spec_parse_dosdatetime(stamp)->Ok_0.0;
    lemma_lf_bytes_parse(lf, again);
    let lf2 = LfView { timestamp: again, dd: written_dd(lf), ..lf };
    assert(lf2.dd_bytes() =~= lf.dd_bytes()) by {
        if lf.gp_flags.has(DATA_DESCRIPTOR) {
        } else {
            assert(lf2.dd == lf.dd);
        }
    }
    assert(lf2.bytes() =~= out);
}

} // verus!
