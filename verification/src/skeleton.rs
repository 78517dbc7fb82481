//! An archive as an ordered list of pages, some of them still holes.

use crate::chunks::{cd_magic, cds_at, collect_cds, views_of, CDInstance, EocdView, EOCD};
use crate::parser::{parse_eocd, rest_of, spec_parse_eocd, ParseError};
use crate::pool::{most_pages, page_at, FragSys, Page};
use crate::scan::{find_all, find_bytes};
use std::ops::Range;
use vstd::pervasive::unreached;
use vstd::prelude::*;
use vstd::slice::slice_subrange;

verus! {

/// The number of zero bytes that stand for a hole when an archive is
/// rendered. It does not follow the page size.
pub const HOLE_SZ: usize = 1024;

/// Why no skeleton was made at an offset.
#[derive(Clone, Copy, Debug, PartialEq, Eq, Structural)]
pub enum SkeletonError {
    /// No end of central directory record parses at the offset.
    Parse(ParseError),
    /// The record's sizes do not go with the place where it was found.
    Geometry,
}

/// Something that takes pages into a book of pages.
pub trait Paged {
    /// Puts `content` into the book, from place `insertion_pt` on.
    fn assign_pages(&self, insertion_pt: usize, content: Vec<Page>);
}

/// A run of bytes of the image that stands for an archive.
#[derive(Debug)]
pub struct Skeleton {
    inner: Range<usize>,
}

/// What an end of central directory record found at an offset says of its
/// archive.
pub ghost struct Plan {
    /// The record.
    pub eocd: EocdView,
    /// Where the archive starts within its first page.
    pub init_offs: int,
    /// The number of pages up to the one that holds the record.
    pub pg_count: int,
}

/// One if `v` is positive, else zero.
pub open spec fn one_if_positive(v: int) -> int {
    if v > 0 {
        1
    } else {
        0
    }
}

/// Where an archive starts within its first page, if its central directory
/// ends `end` bytes behind its start, at offset `off` of a page of `ps`
/// bytes.
pub open spec fn init_offs_of(end: int, off: int, ps: int) -> int {
    (ps - (end - off) % ps) % ps
}

/// The sizes of the record `eocd`, found at offset `ptr`, go with its place:
/// the central directory ends no earlier than the record's place in its
/// page and the start of the archive in its first page allow.
pub open spec fn plan_fits(eocd: EocdView, ps: int, ptr: int) -> bool {
    let off = ptr % ps;
    let end = eocd.cd_sz + eocd.cd_offset;
    end >= off + init_offs_of(end, off, ps)
}

/// The plan of the archive whose end of central directory record stands at
/// offset `ptr` of `image`, with pages of `ps` bytes. There is none where no
/// record parses at `ptr`, and where the central directory would end before
/// the record's place in its page allows.
pub open spec fn plan_skeleton(image: Seq<u8>, ps: int, ptr: int) -> Result<Plan, SkeletonError> {
    match spec_parse_eocd(rest_of(image, ptr)) {
        Err(e) => Err(SkeletonError::Parse(e)),
        Ok((eocd, _)) => {
            let off = ptr % ps;
            let end = eocd.cd_sz + eocd.cd_offset;
            let init = init_offs_of(end, off, ps);
            let count = one_if_positive(off) + one_if_positive(init) + (end - off - init) / ps;
            if end < off || end - off < init {
                Err(SkeletonError::Geometry)
            } else {
                Ok(Plan { eocd, init_offs: init, pg_count: count })
            }
        },
    }
}

impl Plan {
    /// The byte behind the central directory, counted from the start of
    /// the archive: there the record starts.
    pub open spec fn archive_end(self) -> int {
        self.eocd.cd_sz + self.eocd.cd_offset
    }

    /// The pages of a new skeleton: holes, but for the page of the record in
    /// the last place but one, if the page was to be had. An empty archive
    /// whose record starts a page has no place before its one hole, and
    /// the page stands nowhere.
    pub open spec fn slots(self, got: Option<Page>) -> Seq<Page> {
        Seq::new(
            (self.pg_count + 1) as nat,
            |i: int|
                if i == self.pg_count - 1 && got.is_some() {
                    got->Some_0
                } else {
                    Page::Unassigned
                },
        )
    }

    /// The number of bytes by which the pages of the skeleton, at `ps`
    /// bytes each, reach beyond the start of the record, if the record
    /// stands at offset `off` of its page.
    pub open spec fn room_behind(self, off: int, ps: int) -> int {
        ps + (if off > 0 {
            ps - off
        } else {
            0
        }) + (if self.init_offs > 0 {
            ps - self.init_offs
        } else {
            0
        }) - (self.archive_end() - off - self.init_offs) % ps
    }
}

/// A plan keeps the start of the archive within its first page, has a page
/// for the record, and its pages reach beyond the central directory.
pub proof fn lemma_plan_geometry(image: Seq<u8>, ps: int, ptr: int)
    requires
        ps > 0,
        ptr >= 0,
        plan_skeleton(image, ps, ptr) is Ok,
    ensures
        ({
            let plan = plan_skeleton(image, ps, ptr)->Ok_0;
            &&& plan.init_offs == init_offs_of(plan.archive_end(), ptr % ps, ps)
            &&& 0 <= plan.init_offs < ps
            &&& 0 <= plan.pg_count < most_pages(ps)
            &&& plan.init_offs <= plan.archive_end()
            &&& (plan.pg_count + 1) * ps == plan.archive_end() + plan.room_behind(ptr % ps, ps)
            &&& (plan.pg_count + 1) * ps > plan.archive_end()
        }),
{
    let plan = plan_skeleton(image, ps, ptr)->Ok_0;
    let off = ptr % ps;
    let end = plan.archive_end();
    let init = plan.init_offs;
    let x = end - off - init;
    assert(0 <= off < ps);
    assert(0 <= init < ps);
    assert(0 <= x / ps <= 0x2_0000_0000int / ps) by (nonlinear_arith)
        requires
            ps > 0,
            0 <= x <= 0x2_0000_0000,
    ;
    assert(x == ps * (x / ps) + x % ps && 0 <= x % ps < ps) by (nonlinear_arith)
        requires
            ps > 0,
    ;
    assert((plan.pg_count + 1) * ps == ps + one_if_positive(off) * ps + one_if_positive(init)
        * ps + ps * (x / ps)) by (nonlinear_arith)
        requires
            plan.pg_count == one_if_positive(off) + one_if_positive(init) + x / ps,
    ;
}

/// The pages of a plan hold the whole record, fixed part and comment,
/// counted from the start of the archive, exactly where the record is no
/// longer than the room behind its start.
pub proof fn lemma_plan_covers_record(image: Seq<u8>, ps: int, ptr: int)
    requires
        ps > 0,
        ptr >= 0,
        plan_skeleton(image, ps, ptr) is Ok,
    ensures
        ({
            let plan = plan_skeleton(image, ps, ptr)->Ok_0;
            22 + plan.eocd.cmt_len <= plan.room_behind(ptr % ps, ps) <==> (plan.pg_count + 1) * ps
                >= plan.archive_end() + 22 + plan.eocd.cmt_len
        }),
{
    lemma_plan_geometry(image, ps, ptr);
}

/// The bytes that a page gives when an archive is rendered from `data`:
/// what `data` holds of the page's range, or zeros for a hole.
pub open spec fn piece(p: Page, data: Seq<u8>) -> Seq<u8> {
    match p {
        Page::Assigned(r) => {
            let lo = if r.start <= data.len() {
                r.start as int
            } else {
                data.len() as int
            };
            let hi = if r.end <= data.len() {
                r.end as int
            } else {
                data.len() as int
            };
            if lo <= hi {
                data.subrange(lo, hi)
            } else {
                Seq::empty()
            }
        },
        Page::Unassigned => Seq::new(HOLE_SZ as nat, |i: int| 0u8),
    }
}

/// The bytes of an archive rendered from `data`: the pieces of its pages,
/// one after the other.
pub open spec fn rendered(slots: Seq<Page>, data: Seq<u8>) -> Seq<u8>
    decreases slots.len(),
{
    if slots.len() == 0 {
        Seq::empty()
    } else {
        rendered(slots.drop_last(), data) + piece(slots.last(), data)
    }
}

/// `slots` with the pages from place `at` on replaced by `content`.
pub open spec fn spliced(slots: Seq<Page>, at: int, content: Seq<Page>) -> Seq<Page> {
    slots.subrange(0, at) + content + slots.subrange(at + content.len(), slots.len() as int)
}

/// An archive that is being put together: its end of central directory
/// record and its pages in order, holes among them.
#[derive(Debug)]
pub struct ZipFile {
    /// Where the archive starts within its first page.
    init_offs: usize,
    /// The end of central directory record.
    eocd: EOCD,
    /// The pages in order.
    pages: Vec<Page>,
}

/// What a `ZipFile` holds.
pub ghost struct ZipView {
    /// The end of central directory record.
    pub eocd: EocdView,
    /// Where the archive starts within its first page.
    pub init_offs: nat,
    /// The pages in order.
    pub slots: Seq<Page>,
}

impl View for ZipFile {
    type V = ZipView;

    open spec fn view(&self) -> ZipView {
        ZipView {
            eocd: self.spec_eocd(),
            init_offs: self.spec_init_offs() as nat,
            slots: self.slots(),
        }
    }
}

/// What a list of skeletons holds.
pub open spec fn zip_views(zips: Seq<ZipFile>) -> Seq<ZipView> {
    zips.map_values(|z: ZipFile| z@)
}

/// The skeletons that are made at the offsets `ptrs` of `image`, one after
/// the other, from a pool that holds the pages `avail` at first; and the
/// pages that the pool holds afterwards. An offset at which no skeleton can
/// be made gives none and takes no page. A skeleton that is planned with
/// more pages than the pool holds is left out: the pool is counted as it is
/// before the page of the record is taken, and the page is taken all the
/// same.
pub open spec fn skeletons_at(image: Seq<u8>, ps: int, avail: Set<int>, ptrs: Seq<int>) -> (
    Seq<ZipView>,
    Set<int>,
)
    decreases ptrs.len(),
{
    if ptrs.len() == 0 {
        (Seq::empty(), avail)
    } else {
        let (zips, left) = skeletons_at(image, ps, avail, ptrs.drop_last());
        let ptr = ptrs.last();
        match plan_skeleton(image, ps, ptr) {
            Err(_) => (zips, left),
            Ok(plan) => {
                let got = if left.contains(ptr / ps) {
                    Some(page_at(ptr / ps, ps))
                } else {
                    None
                };
                if plan.pg_count > left.len() {
                    (zips, left.remove(ptr / ps))
                } else {
                    (
                        zips.push(
                            ZipView {
                                eocd: plan.eocd,
                                init_offs: plan.init_offs as nat,
                                slots: plan.slots(got),
                            },
                        ),
                        left.remove(ptr / ps),
                    )
                }
            },
        }
    }
}

impl ZipFile {
    /// Where the archive starts within its first page.
    pub closed spec fn spec_init_offs(&self) -> usize {
        self.init_offs
    }

    /// The end of central directory record.
    pub closed spec fn spec_eocd(&self) -> EocdView {
        self.eocd@
    }

    /// The pages in order.
    pub closed spec fn slots(&self) -> Seq<Page> {
        self.pages@
    }

    /// Makes the skeleton of the archive whose end of central directory
    /// record stands at offset `ptr` of the image, and takes the page of
    /// the record out of the pool into its place.
    ///
    /// Fails, and leaves the pool as it is, where no record parses at
    /// `ptr`, and where the record's sizes make no sense at that place: the
    /// central directory would end before the record's place in its page
    /// allows. How many pages the pool holds plays no part.
    pub fn new(fs: &mut FragSys, ptr: usize) -> (r: Result<ZipFile, SkeletonError>)
        requires
            old(fs).wf(),
        ensures
            final(fs).wf(),
            final(fs).image() == old(fs).image(),
            final(fs).spec_page_sz() == old(fs).spec_page_sz(),
            match plan_skeleton(old(fs).image(), old(fs).spec_page_sz() as int, ptr as int) {
                Err(e) => r matches Err(f) && f == e && final(fs).pool() == old(fs).pool(),
                Ok(plan) => r matches Ok(zf) && zf.spec_eocd() == plan.eocd
                    && zf.spec_init_offs() == plan.init_offs && zf.slots() == plan.slots(
                    old(fs).page_for(ptr),
                ) && FragSys::took(*old(fs), ptr, *final(fs), old(fs).page_for(ptr)),
            },
            r.is_ok() <==> spec_parse_eocd(rest_of(old(fs).image(), ptr as int)) is Ok && plan_fits(
                spec_parse_eocd(rest_of(old(fs).image(), ptr as int))->Ok_0.0,
                old(fs).spec_page_sz() as int,
                ptr as int,
            ),
            r matches Ok(zf) ==> zf.spec_init_offs() == init_offs_of(
                zf.spec_eocd().cd_sz + zf.spec_eocd().cd_offset,
                ptr as int % old(fs).spec_page_sz() as int,
                old(fs).spec_page_sz() as int,
            ) && zf.spec_init_offs() < old(fs).spec_page_sz() && zf.slots().len() >= 1
                && zf.slots().len() * old(fs).spec_page_sz() > zf.spec_eocd().cd_sz
                + zf.spec_eocd().cd_offset,
    {
        let ghost plan = plan_skeleton(fs.image(), fs.spec_page_sz() as int, ptr as int);
        let data: &[u8] = fs.data().as_slice();
        let from: usize = if ptr <= data.len() {
            ptr
        } else {
            data.len()
        };
        let eocd: EOCD = match parse_eocd(slice_subrange(data, from, data.len())) {
            Ok((_, eocd)) => eocd,
            Err(e) => {
                return Err(SkeletonError::Parse(e));
            },
        };
        let ps: u64 = fs.page_sz() as u64;
        let off: u64 = (ptr % fs.page_sz()) as u64;
        let end: u64 = eocd.cd_sz as u64 + eocd.cd_offset as u64;
        if end < off {
            return Err(SkeletonError::Geometry);
        }
        let init: u64 = (ps - (end - off) % ps) % ps;
        if end - off < init {
            return Err(SkeletonError::Geometry);
        }
        let count: u64 = (if off > 0 {
            1u64
        } else {
            0u64
        }) + (if init > 0 {
            1u64
        } else {
            0u64
        }) + (end - off - init) / ps;
        proof {
            lemma_plan_geometry(fs.image(), fs.spec_page_sz() as int, ptr as int);
        }
        let pg_count: usize = count as usize;
        let mut pages: Vec<Page> = Vec::new();
        let mut i: usize = 0;
        while i <= pg_count
            invariant
                pg_count < usize::MAX,
                i <= pg_count + 1,
                pages@.len() == i,
                forall|j: int| 0 <= j < i ==> #[trigger] pages@[j] == Page::Unassigned,
            decreases pg_count + 1 - i,
        {
            pages.push(Page::Unassigned);
            i += 1;
        }
        let ghost before = *fs;
        match fs.get_pg_for_addr(ptr) {
            Some(page) => {
                if pg_count > 0 {
                    pages.set(pg_count - 1, page);
                }
            },
            None => {},
        }
        let zf = ZipFile { init_offs: init as usize, eocd, pages };
        proof {
            assert(zf.slots() =~= plan->Ok_0.slots(before.page_for(ptr)));
        }
        Ok(zf)
    }

    /// Where the archive starts within its first page.
    pub fn init_offs(&self) -> (o: usize)
        ensures
            o == self.spec_init_offs(),
    {
        self.init_offs
    }

    /// The end of central directory record.
    pub fn eocd(&self) -> (e: &EOCD)
        ensures
            e@ == self.spec_eocd(),
    {
        &self.eocd
    }

    /// The number of pages of the skeleton, holes counted.
    pub fn page_count(&self) -> (n: usize)
        ensures
            n == self.slots().len(),
    {
        self.pages.len()
    }

    /// The index of the page that holds offset `offs` of the archive, with
    /// pages of `pg_sz` bytes.
    pub fn get_pg_idx_for_offs(&self, offs: usize, pg_sz: usize) -> (idx: usize)
        requires
            pg_sz > 0,
            offs + self.spec_init_offs() <= usize::MAX,
        ensures
            idx == (offs + self.spec_init_offs()) / pg_sz as int,
    {
        let adj_offs: usize = offs + self.init_offs;
        adj_offs / pg_sz
    }

    /// The index of the page in which the central directory starts, with
    /// pages of `pg_sz` bytes.
    pub fn get_cd_start_pg_idx(&self, pg_sz: usize) -> (idx: usize)
        requires
            pg_sz > 0,
            self.spec_eocd().cd_offset + self.spec_init_offs() <= usize::MAX,
        ensures
            idx == (self.spec_eocd().cd_offset + self.spec_init_offs()) / pg_sz as int,
    {
        self.get_pg_idx_for_offs(self.eocd.cd_offset as usize, pg_sz)
    }

    /// Puts the pages `content` in the places from `insertion_pt` on, in
    /// place of what stood there.
    pub fn assign_pages(&mut self, insertion_pt: usize, content: Vec<Page>)
        requires
            insertion_pt + content@.len() <= old(self).slots().len(),
        ensures
            final(self).slots() == spliced(old(self).slots(), insertion_pt as int, content@),
            final(self).slots().len() == old(self).slots().len(),
            final(self).spec_eocd() == old(self).spec_eocd(),
            final(self).spec_init_offs() == old(self).spec_init_offs(),
    {
        let mut content = content;
        let ghost all = content@;
        let ghost n = all.len() as int;
        while content.len() > 0
            invariant
                n == all.len(),
                insertion_pt + n <= old(self).slots().len(),
                content@ == all.subrange(0, content@.len() as int),
                content@.len() <= n,
                self.pages@.len() == old(self).slots().len(),
                self.pages@ == spliced(
                    old(self).slots(),
                    insertion_pt + content@.len(),
                    all.subrange(content@.len() as int, n),
                ),
                self.eocd == old(self).eocd,
                self.init_offs == old(self).init_offs,
            decreases content.len(),
        {
            let ghost m = content@.len() as int;
            let page = match content.pop() {
                Some(p) => p,
                None => unreached(),
            };
            assert(self.pages.len() == old(self).slots().len());
            let at: usize = insertion_pt + content.len();
            self.pages.set(at, page);
            proof {
                assert(content@ =~= all.subrange(0, m - 1));
                assert(self.pages@ =~= spliced(
                    old(self).slots(),
                    insertion_pt + (m - 1),
                    all.subrange(m - 1, n),
                ));
            }
        }
        proof {
            assert(all.subrange(0, n) =~= all);
        }
    }

    /// Puts `page` in place `idx`; does nothing where the skeleton has no
    /// such place.
    pub fn assign_page(&mut self, idx: usize, page: Page)
        ensures
            final(self).slots() == if idx < old(self).slots().len() {
                old(self).slots().update(idx as int, page)
            } else {
                old(self).slots()
            },
            final(self).spec_eocd() == old(self).spec_eocd(),
            final(self).spec_init_offs() == old(self).spec_init_offs(),
    {
        if idx < self.pages.len() {
            self.pages.set(idx, page);
        }
    }

    /// Renders the archive from the bytes `data` of the image: for each
    /// page in order what `data` holds of its range, for each hole
    /// `HOLE_SZ` zero bytes. `pagesz` is the size of the pages; the result
    /// does not depend on it.
    pub fn render_pages(&self, data: &[u8], pagesz: usize) -> (out: Vec<u8>)
        ensures
            out@ == rendered(self.slots(), data@),
    {
        let mut out: Vec<u8> = Vec::new();
        let zeros: [u8; 1024] = [0u8; 1024];
        let mut i: usize = 0;
        assert(self.pages@.subrange(0, 0) =~= Seq::<Page>::empty());
        while i < self.pages.len()
            invariant
                i <= self.pages@.len(),
                zeros@ == Seq::new(HOLE_SZ as nat, |i: int| 0u8),
                out@ == rendered(self.pages@.subrange(0, i as int), data@),
            decreases self.pages.len() - i,
        {
            let ghost before = out@;
            proof {
                assert(self.pages@.subrange(0, i + 1).drop_last() =~= self.pages@.subrange(
                    0,
                    i as int,
                ));
            }
            match &self.pages[i] {
                Page::Assigned(r) => {
                    let lo: usize = if r.start <= data.len() {
                        r.start
                    } else {
                        data.len()
                    };
                    let hi: usize = if r.end <= data.len() {
                        r.end
                    } else {
                        data.len()
                    };
                    if lo <= hi {
                        out.extend_from_slice(slice_subrange(data, lo, hi));
                    }
                },
                Page::Unassigned => {
                    out.extend_from_slice(zeros.as_slice());
                },
            }
            proof {
                assert(out@ =~= before + piece(self.pages@[i as int], data@));
            }
            i += 1;
        }
        assert(self.pages@.subrange(0, i as int) =~= self.pages@);
        out
    }

    /// The central directory headers of the archive as far as it is put
    /// together: the archive is rendered from `data`, and at every offset
    /// of the rendering at which the magic stands, the header that parses
    /// there is kept. Offsets are those of the rendering.
    pub fn find_cds(&self, data: &[u8]) -> (results: Vec<CDInstance>)
        ensures
            views_of(results@) == cds_at(
                rendered(self.slots(), data@),
                find_all(rendered(self.slots(), data@), cd_magic()),
            ),
    {
        let out = self.render_pages(data, HOLE_SZ);
        let magic: [u8; 4] = [0x50, 0x4b, 0x01, 0x02];
        proof {
            assert(magic@ =~= cd_magic());
        }
        let cd_ptrs = find_bytes(out.as_slice(), magic.as_slice());
        collect_cds(out.as_slice(), &cd_ptrs)
    }
}

} // verus!
