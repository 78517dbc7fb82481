//! The headers of a ZIP archive as records, and their spelling in bytes.
//! The pool of pages and the skeletons built from them are reached from here
//! too.

pub use crate::pool::{FragSys, Page};
pub use crate::skeleton::{Paged, Skeleton, ZipFile};

use crate::analysis::{Instance, Vectorizable};
use crate::bytes::{le16_bytes, le32_bytes, u16_to_le, u32_to_le};
use crate::calendar::{dos_bytes_of_unix, dostime_to_bytes};
use crate::parser::{parse_cd, rest_of, spec_parse_cd, ParseError};
use crate::scan::offsets;
use vstd::prelude::*;
use vstd::slice::slice_subrange;
use vstd::string::StringSliceAdditionalSpecFns;

verus! {

/// Bit 0 of the general purpose flags: the entry is encrypted.
pub const ENCRYPTED: u16 = 0x0001;

/// Bit 1: maximum compression (deflate only).
pub const MAXIMUM: u16 = 0x0002;

/// Bit 2: fast compression (deflate only).
pub const FAST: u16 = 0x0004;

/// Bits 1 and 2 together: super-fast compression (deflate only).
pub const SUPER_FAST: u16 = 0x0006;

/// Bit 3: checksum and sizes stand in a data descriptor after the data, not
/// in the local file header.
pub const DATA_DESCRIPTOR: u16 = 0x0008;

/// Bit 4: enhanced deflate.
pub const ENHANCED_DEFLATE: u16 = 0x0010;

/// Bit 5: compressed patch data.
pub const PATCH_DATA: u16 = 0x0020;

/// Bit 6: strong encryption.
pub const STRONG_ENCRYPTION: u16 = 0x0040;

/// Bit 11: file names are UTF-8.
pub const UTF: u16 = 0x0800;

/// Bit 13: central directory records are masked (encryption only).
pub const MASKED_CD_RECORDS: u16 = 0x2000;

/// The general purpose flags of an entry. Bits without a name are kept as
/// they were read.
#[derive(Clone, Copy, Debug, PartialEq, Eq, Structural)]
pub struct ZipFlags {
    pub bits: u16,
}

impl ZipFlags {
    /// The flags with exactly the bits of `bits` set.
    pub fn from_bits_retain(bits: u16) -> (f: ZipFlags)
        ensures
            f.bits == bits,
    {
        ZipFlags { bits }
    }

    /// The flags as a number.
    pub fn bits(&self) -> (b: u16)
        ensures
            b == self.bits,
    {
        self.bits
    }

    /// Every bit of `mask` is set.
    pub open spec fn has(self, mask: u16) -> bool {
        self.bits & mask == mask
    }

    /// Whether every bit of `mask` is set.
    pub fn contains(&self, mask: u16) -> (b: bool)
        ensures
            b == self.has(mask),
    {
        self.bits & mask == mask
    }
}

/// A data descriptor: checksum and sizes of one entry.
#[derive(Clone, Copy, Debug, PartialEq, Eq, Structural)]
pub struct DD {
    /// CRC-32 of the uncompressed data.
    pub crc32: u32,
    /// Compressed size.
    pub z_sz: u32,
    /// Uncompressed size.
    pub u_sz: u32,
}

impl DD {
    /// The twelve bytes of the descriptor, without magic.
    pub open spec fn bytes(self) -> Seq<u8> {
        le32_bytes(self.crc32) + le32_bytes(self.z_sz) + le32_bytes(self.u_sz)
    }

    /// Spells the descriptor as it stands inside a header: three
    /// little-endian numbers, no magic.
    pub fn unparse(&self) -> (res: [u8; 12])
        ensures
            res@ == self.bytes(),
    {
        let c: [u8; 4] = u32_to_le(self.crc32);
        let z: [u8; 4] = u32_to_le(self.z_sz);
        let u: [u8; 4] = u32_to_le(self.u_sz);
        let res: [u8; 12] = [
            c[0],
            c[1],
            c[2],
            c[3],
            z[0],
            z[1],
            z[2],
            z[3],
            u[0],
            u[1],
            u[2],
            u[3],
        ];
        assert(res@ =~= self.bytes());
        res
    }
}

/// An end of central directory record.
#[derive(Debug, PartialEq)]
pub struct EOCD {
    /// Number of this disk within the set.
    pub dsk_no: u16,
    /// Disk on which the central directory starts.
    pub dsk_w_cd: u16,
    /// Entries of the central directory on this disk.
    pub dsk_entries: u16,
    /// Entries of the central directory in all.
    pub tot_entries: u16,
    /// Size of the central directory in bytes.
    pub cd_sz: u32,
    /// Offset of the central directory from the start of the archive.
    pub cd_offset: u32,
    /// Length of the comment in bytes.
    pub cmt_len: u16,
    /// The archive's comment.
    pub zip_cmt: String,
}

/// What an `EOCD` holds, the comment as a sequence of characters.
pub ghost struct EocdView {
    pub dsk_no: u16,
    pub dsk_w_cd: u16,
    pub dsk_entries: u16,
    pub tot_entries: u16,
    pub cd_sz: u32,
    pub cd_offset: u32,
    pub cmt_len: u16,
    pub zip_cmt: Seq<char>,
}

impl View for EOCD {
    type V = EocdView;

    open spec fn view(&self) -> EocdView {
        EocdView {
            dsk_no: self.dsk_no,
            dsk_w_cd: self.dsk_w_cd,
            dsk_entries: self.dsk_entries,
            tot_entries: self.tot_entries,
            cd_sz: self.cd_sz,
            cd_offset: self.cd_offset,
            cmt_len: self.cmt_len,
            zip_cmt: self.zip_cmt@,
        }
    }
}

/// A central directory header: what the archive's index says of one entry.
#[derive(Debug, PartialEq)]
pub struct CD {
    /// Version of the tool that made the entry.
    pub v_made_by: u16,
    /// Version needed to extract.
    pub v_needed: u16,
    /// General purpose flags.
    pub gp_flags: ZipFlags,
    /// Compression method.
    pub method: u16,
    /// Time of last change, in seconds since 1970.
    pub timestamp: u32,
    /// Checksum and sizes.
    pub dd: DD,
    /// Length of the file name in bytes.
    pub fn_len: u16,
    /// Length of the extra field.
    pub ef_len: u16,
    /// Length of the file comment.
    pub fc_len: u16,
    /// Disk on which the entry starts.
    pub dsk_no_s: u16,
    /// Internal attributes.
    pub int_attr: u16,
    /// External attributes.
    pub ext_attr: u32,
    /// Offset of the entry's local file header from the start of the archive.
    pub lf_offset: u32,
    /// The file name.
    pub filename: String,
}

/// What a `CD` holds, the file name as a sequence of characters.
pub ghost struct CdView {
    pub v_made_by: u16,
    pub v_needed: u16,
    pub gp_flags: ZipFlags,
    pub method: u16,
    pub timestamp: u32,
    pub dd: DD,
    pub fn_len: u16,
    pub ef_len: u16,
    pub fc_len: u16,
    pub dsk_no_s: u16,
    pub int_attr: u16,
    pub ext_attr: u32,
    pub lf_offset: u32,
    pub filename: Seq<char>,
}

impl View for CD {
    type V = CdView;

    open spec fn view(&self) -> CdView {
        CdView {
            v_made_by: self.v_made_by,
            v_needed: self.v_needed,
            gp_flags: self.gp_flags,
            method: self.method,
            timestamp: self.timestamp,
            dd: self.dd,
            fn_len: self.fn_len,
            ef_len: self.ef_len,
            fc_len: self.fc_len,
            dsk_no_s: self.dsk_no_s,
            int_attr: self.int_attr,
            ext_attr: self.ext_attr,
            lf_offset: self.lf_offset,
            filename: self.filename@,
        }
    }
}

impl CdView {
    /// The local file header that this central directory header announces.
    pub open spec fn to_lf(self) -> LfView {
        LfView {
            v_needed: self.v_needed,
            gp_flags: self.gp_flags,
            method: self.method,
            timestamp: self.timestamp,
            dd: self.dd,
            fn_len: self.fn_len,
            ef_len: self.ef_len,
            filename: self.filename,
        }
    }

    /// Where the header stands among the headers found: the five numbers by
    /// which headers of one archive resemble each other.
    pub open spec fn coordinates(self) -> Seq<u32> {
        seq![
            self.timestamp,
            self.method as u32,
            self.v_made_by as u32,
            self.v_needed as u32,
            self.gp_flags.bits as u32,
        ]
    }
}

impl Clone for CD {
    fn clone(&self) -> (res: Self)
        ensures
            res@ == self@,
    {
        CD {
            v_made_by: self.v_made_by,
            v_needed: self.v_needed,
            gp_flags: self.gp_flags,
            method: self.method,
            timestamp: self.timestamp,
            dd: self.dd,
            fn_len: self.fn_len,
            ef_len: self.ef_len,
            fc_len: self.fc_len,
            dsk_no_s: self.dsk_no_s,
            int_attr: self.int_attr,
            ext_attr: self.ext_attr,
            lf_offset: self.lf_offset,
            filename: self.filename.clone(),
        }
    }
}

impl CD {
    /// The local file header that this central directory header announces.
    pub fn to_lf(&self) -> (lf: LF)
        ensures
            lf@ == self@.to_lf(),
    {
        LF {
            v_needed: self.v_needed,
            gp_flags: self.gp_flags,
            method: self.method,
            timestamp: self.timestamp,
            dd: self.dd,
            fn_len: self.fn_len,
            ef_len: self.ef_len,
            filename: self.filename.clone(),
        }
    }

    /// Parses the central directory header that starts at offset `ptr` of
    /// `data`. Behind the end of `data` there is none.
    pub fn from_data(data: &[u8], ptr: usize) -> (r: Result<CD, ParseError>)
        ensures
            match spec_parse_cd(rest_of(data@, ptr as int)) {
                Ok((v, _)) => r matches Ok(cd) && cd@ == v,
                Err(e) => r matches Err(f) && f == e,
            },
    {
        if ptr > data.len() {
            return Err(ParseError::BadMagic);
        }
        match parse_cd(slice_subrange(data, ptr, data.len())) {
            Ok((_, cd)) => Ok(cd),
            Err(e) => Err(e),
        }
    }

}

impl Vectorizable for CD {
    /// The header as a point for clustering: time, method, version made by,
    /// version needed and flags, in that order.
    fn to_euclidean(&self) -> (p: [u32; 5])
        ensures
            p@ == self@.coordinates(),
    {
        let p: [u32; 5] = [
            self.timestamp,
            self.method as u32,
            self.v_made_by as u32,
            self.v_needed as u32,
            self.gp_flags.bits as u32,
        ];
        assert(p@ =~= self@.coordinates());
        p
    }
}

/// A central directory header together with the offset at which it was
/// found.
#[derive(Debug, PartialEq)]
pub struct CDInstance(pub usize, pub CD);

impl View for CDInstance {
    type V = (usize, CdView);

    open spec fn view(&self) -> (usize, CdView) {
        (self.0, self.1@)
    }
}

impl Clone for CDInstance {
    fn clone(&self) -> (res: Self)
        ensures
            res@ == self@,
    {
        CDInstance(self.0, self.1.clone())
    }
}

impl Instance for CDInstance {
    type Item = CD;

    fn ptr(&self) -> (p: usize)
        ensures
            p == self.0,
    {
        self.0
    }

    fn header(&self) -> (cd: &CD)
        ensures
            *cd == self.1,
    {
        &self.1
    }
}

/// The central directory headers that parse at the offsets `ptrs` of `data`,
/// each with its offset, in the order of `ptrs`. An offset at which none
/// parses gives nothing.
pub open spec fn cds_at(data: Seq<u8>, ptrs: Seq<int>) -> Seq<(usize, CdView)>
    decreases ptrs.len(),
{
    if ptrs.len() == 0 {
        Seq::empty()
    } else {
        let before = cds_at(data, ptrs.drop_last());
        match spec_parse_cd(rest_of(data, ptrs.last())) {
            Ok((v, _)) => before.push((ptrs.last() as usize, v)),
            Err(_) => before,
        }
    }
}

/// What a list of headers holds.
pub open spec fn views_of(cds: Seq<CDInstance>) -> Seq<(usize, CdView)> {
    cds.map_values(|c: CDInstance| c@)
}

/// Parses a central directory header at each of the offsets `ptrs` of
/// `data` and keeps those that parse.
pub fn collect_cds(data: &[u8], ptrs: &Vec<usize>) -> (results: Vec<CDInstance>)
    ensures
        views_of(results@) == cds_at(data@, offsets(ptrs@)),
{
    let mut results: Vec<CDInstance> = Vec::new();
    let mut i: usize = 0;
    assert(offsets(ptrs@).subrange(0, 0) =~= Seq::<int>::empty());
    assert(views_of(results@) =~= Seq::empty());
    while i < ptrs.len()
        invariant
            i <= ptrs@.len(),
            views_of(results@) == cds_at(data@, offsets(ptrs@).subrange(0, i as int)),
        decreases ptrs.len() - i,
    {
        let ptr: usize = ptrs[i];
        let ghost before = views_of(results@);
        proof {
            assert(offsets(ptrs@).subrange(0, i + 1).drop_last() =~= offsets(ptrs@).subrange(
                0,
                i as int,
            ));
            assert(offsets(ptrs@).subrange(0, i + 1).last() == ptr);
        }
        match CD::from_data(data, ptr) {
            Ok(cd) => {
                let inst = CDInstance(ptr, cd);
                results.push(inst);
                assert(views_of(results@) =~= before.push(inst@));
            },
            Err(_) => {},
        }
        i += 1;
    }
    assert(offsets(ptrs@).subrange(0, i as int) =~= offsets(ptrs@));
    results
}

/// A local file header: what stands in front of an entry's data.
#[derive(Debug, PartialEq)]
pub struct LF {
    /// Version needed to extract.
    pub v_needed: u16,
    /// General purpose flags.
    pub gp_flags: ZipFlags,
    /// Compression method.
    pub method: u16,
    /// Time of last change, in seconds since 1970.
    pub timestamp: u32,
    /// Checksum and sizes.
    pub dd: DD,
    /// Length of the file name in bytes.
    pub fn_len: u16,
    /// Length of the extra field.
    pub ef_len: u16,
    /// The file name.
    pub filename: String,
}

/// What an `LF` holds, the file name as a sequence of characters.
pub ghost struct LfView {
    pub v_needed: u16,
    pub gp_flags: ZipFlags,
    pub method: u16,
    pub timestamp: u32,
    pub dd: DD,
    pub fn_len: u16,
    pub ef_len: u16,
    pub filename: Seq<char>,
}

impl View for LF {
    type V = LfView;

    open spec fn view(&self) -> LfView {
        LfView {
            v_needed: self.v_needed,
            gp_flags: self.gp_flags,
            method: self.method,
            timestamp: self.timestamp,
            dd: self.dd,
            fn_len: self.fn_len,
            ef_len: self.ef_len,
            filename: self.filename@,
        }
    }
}

/// The magic of a local file header.
pub open spec fn lf_magic() -> Seq<u8> {
    seq![0x50u8, 0x4bu8, 0x03u8, 0x04u8]
}

/// The magic of a central directory header.
pub open spec fn cd_magic() -> Seq<u8> {
    seq![0x50u8, 0x4bu8, 0x01u8, 0x02u8]
}

/// The magic of an end of central directory record.
pub open spec fn eocd_magic() -> Seq<u8> {
    seq![0x50u8, 0x4bu8, 0x05u8, 0x06u8]
}

/// The magic that may stand in front of a data descriptor.
pub open spec fn dd_magic() -> Seq<u8> {
    seq![0x50u8, 0x4bu8, 0x07u8, 0x08u8]
}

impl LfView {
    /// The twelve bytes that stand for checksum and sizes in the header:
    /// zeros where the flags say that a data descriptor follows the data.
    pub open spec fn dd_bytes(self) -> Seq<u8> {
        if self.gp_flags.has(DATA_DESCRIPTOR) {
            Seq::new(12, |i: int| 0u8)
        } else {
            self.dd.bytes()
        }
    }

    /// The header in bytes: magic, version needed, flags, method, DOS time
    /// and date, checksum and sizes, the two lengths, the file name. The
    /// extra field is not part of it.
    pub open spec fn bytes(self) -> Seq<u8> {
        lf_magic() + le16_bytes(self.v_needed) + le16_bytes(self.gp_flags.bits) + le16_bytes(
            self.method,
        ) + dos_bytes_of_unix(self.timestamp) + self.dd_bytes() + le16_bytes(self.fn_len)
            + le16_bytes(self.ef_len) + vstd::utf8::encode_utf8(self.filename)
    }
}

impl LF {
    /// The local file header that a central directory header announces.
    pub fn from(cd: &CD) -> (lf: LF)
        ensures
            lf@ == cd@.to_lf(),
    {
        cd.to_lf()
    }

    /// Spells the header in bytes, as `LfView::bytes` says.
    pub fn unparse(&self) -> (res: Vec<u8>)
        ensures
            res@ == self@.bytes(),
    {
        let mut res: Vec<u8> = Vec::new();
        res.push(0x50);
        res.push(0x4b);
        res.push(0x03);
        res.push(0x04);
        assert(res@ =~= lf_magic());
        let v: [u8; 2] = u16_to_le(self.v_needed);
        res.extend_from_slice(v.as_slice());
        let f: [u8; 2] = u16_to_le(self.gp_flags.bits());
        res.extend_from_slice(f.as_slice());
        let m: [u8; 2] = u16_to_le(self.method);
        res.extend_from_slice(m.as_slice());
        let t: [u8; 4] = dostime_to_bytes(self.timestamp);
        res.extend_from_slice(t.as_slice());
        if self.gp_flags.contains(DATA_DESCRIPTOR) {
            let zeros: [u8; 12] = [0u8; 12];
            res.extend_from_slice(zeros.as_slice());
        } else {
            let d: [u8; 12] = self.dd.unparse();
            res.extend_from_slice(d.as_slice());
        }
        let l: [u8; 2] = u16_to_le(self.fn_len);
        res.extend_from_slice(l.as_slice());
        let e: [u8; 2] = u16_to_le(self.ef_len);
        res.extend_from_slice(e.as_slice());
        res.extend_from_slice(self.filename.as_str().as_bytes());
        assert(res@ =~= self@.bytes());
        res
    }
}

} // verus!
