//! The image as a pool of pages: every page can be taken out once.

use crate::chunks::{cd_magic, cds_at, collect_cds, eocd_magic, lf_magic, views_of, CDInstance, LF};
use crate::ownership::{lemma_pool_within, lemma_skeletons_apart, owned_apart};
use crate::scan::{
    find_all, find_bytes, first_hit, lemma_magic_no_self_overlap, matches_at, no_self_overlap,
    offsets,
};
use crate::skeleton::{skeletons_at, zip_views, ZipFile};
use std::ops::Range;
use vstd::prelude::*;
use vstd::slice::slice_subrange;

verus! {

/// A page of the image, or the place of one that is not known.
#[derive(Debug)]
pub enum Page {
    /// The bytes of the image from `start` up to `end`.
    Assigned(Range<usize>),
    /// A hole: a page is expected here and none was found.
    Unassigned,
}

impl Clone for Page {
    fn clone(&self) -> (res: Self)
        ensures
            res == *self,
    {
        match self {
            Page::Assigned(r) => Page::Assigned(Range { start: r.start, end: r.end }),
            Page::Unassigned => Page::Unassigned,
        }
    }
}

impl Page {
    /// The page is assigned and `addr` lies in its range.
    pub open spec fn holds(self, addr: usize) -> bool {
        match self {
            Page::Assigned(r) => r.start <= addr < r.end,
            Page::Unassigned => false,
        }
    }

    /// Whether the page is assigned and `addr` lies in its range.
    pub fn contains(&self, addr: usize) -> (b: bool)
        ensures
            b == self.holds(addr),
    {
        match self {
            Page::Assigned(r) => r.start <= addr && addr < r.end,
            Page::Unassigned => false,
        }
    }
}

/// The number of pages of `ps` bytes that cover `n` bytes; the last may
/// reach beyond them.
pub open spec fn pages_of(n: int, ps: int) -> int {
    n / ps + if n % ps > 0 {
        1int
    } else {
        0int
    }
}

/// A bound on the number of slots of a skeleton with pages of `ps` bytes:
/// the format lets a central directory end less than 2^33 bytes behind the
/// start of its archive.
pub open spec fn most_pages(ps: int) -> int {
    0x2_0000_0000int / ps + 3
}

/// Page `k` of an image cut into pages of `ps` bytes.
pub open spec fn page_at(k: int, ps: int) -> Page {
    Page::Assigned(Range { start: (k * ps) as usize, end: (k * ps + ps) as usize })
}

/// The number of a page among the pages of `ps` bytes: `-1` for a hole.
pub open spec fn number_of(p: Page, ps: int) -> int {
    match p {
        Page::Assigned(r) => r.start as int / ps,
        Page::Unassigned => -1,
    }
}

/// Page `k` of an image of `n` bytes starts within the image; and where
/// `n + ps` fits the machine, the page has its number.
pub proof fn lemma_page_fits(n: int, ps: int, k: int)
    requires
        0 <= n,
        0 < ps,
        0 <= k < pages_of(n, ps),
    ensures
        0 <= k * ps < n,
        k * ps + ps < n + ps,
        n + ps <= usize::MAX ==> number_of(page_at(k, ps), ps) == k,
{
    assert(0 <= k * ps < n) by (nonlinear_arith)
        requires
            0 <= n,
            0 < ps,
            0 <= k,
            k < n / ps + if n % ps > 0 {
                1int
            } else {
                0int
            },
    ;
    if n + ps <= usize::MAX {
        assert((k * ps) / ps == k) by (nonlinear_arith)
            requires
                0 < ps,
                0 <= k,
        ;
    }
}

/// The number of pages is the length divided by the page size, rounded up.
pub proof fn lemma_pages_of(n: int, ps: int)
    requires
        0 <= n,
        0 < ps,
    ensures
        pages_of(n, ps) == (n + ps - 1) / ps,
        0 <= pages_of(n, ps) <= n,
{
    assert(pages_of(n, ps) == (n + ps - 1) / ps && 0 <= pages_of(n, ps) <= n)
        by (nonlinear_arith)
        requires
            0 <= n,
            0 < ps,
            pages_of(n, ps) == n / ps + if n % ps > 0 {
                1int
            } else {
                0int
            },
    ;
}

/// An address lies in page `k` exactly if `k` is the address divided by the
/// page size.
pub proof fn lemma_page_of_addr(k: int, ps: int, addr: int)
    requires
        0 < ps,
        0 <= k,
        0 <= addr,
    ensures
        (k * ps <= addr < k * ps + ps) <==> addr / ps == k,
{
    assert((k * ps <= addr < k * ps + ps) <==> addr / ps == k) by (nonlinear_arith)
        requires
            0 < ps,
            0 <= k,
            0 <= addr,
    ;
}

/// An image whose pages have lost their order: the bytes, and the pool of
/// pages that no archive has claimed yet.
#[derive(Debug)]
pub struct FragSys {
    /// The bytes of the image.
    data: Vec<u8>,
    /// The size of a page.
    page_sz: usize,
    /// The pages that are still to be had, in no order.
    pages: Vec<Page>,
}

impl FragSys {
    /// The bytes of the image.
    pub closed spec fn image(&self) -> Seq<u8> {
        self.data@
    }

    /// The size of a page.
    pub closed spec fn spec_page_sz(&self) -> usize {
        self.page_sz
    }

    /// The pages in the pool, in the order in which they are kept.
    pub closed spec fn pool(&self) -> Seq<Page> {
        self.pages@
    }

    /// The number of pages of the whole image.
    pub open spec fn page_count(&self) -> int {
        pages_of(self.image().len() as int, self.spec_page_sz() as int)
    }

    /// The numbers of the pages in the pool, in the order of the pool.
    pub open spec fn numbers(&self) -> Seq<int> {
        Seq::new(self.pool().len(), |i: int| number_of(self.pool()[i], self.spec_page_sz() as int))
    }

    /// The numbers of the pages that are still to be had.
    pub open spec fn available(&self) -> Set<int> {
        self.numbers().to_set()
    }

    /// The numbers of the pages that were taken out.
    pub open spec fn taken(&self) -> Set<int> {
        Set::new(|k: int| 0 <= k < self.page_count() && !self.available().contains(k))
    }

    /// The pool holds pages of the image, each of the page size and at a
    /// multiple of it, none of them twice; and the machine can count what
    /// has to be counted: offsets into the image with a page more, and the
    /// slots of the largest skeleton.
    pub open spec fn wf(&self) -> bool {
        &&& self.spec_page_sz() > 0
        &&& self.image().len() + self.spec_page_sz() <= usize::MAX
        &&& most_pages(self.spec_page_sz() as int) <= usize::MAX
        &&& forall|i: int|
            0 <= i < self.pool().len() ==> 0 <= #[trigger] self.numbers()[i] < self.page_count()
                && self.pool()[i] == page_at(self.numbers()[i], self.spec_page_sz() as int)
        &&& self.numbers().no_duplicates()
    }

    /// The page that holds `addr`, if it is still to be had.
    pub open spec fn page_for(&self, addr: usize) -> Option<Page> {
        let ps = self.spec_page_sz() as int;
        if self.available().contains(addr as int / ps) {
            Some(page_at(addr as int / ps, ps))
        } else {
            None
        }
    }

    /// How `get_pg_for_addr` changes the pool: the page of `addr` leaves it
    /// if it was there, and is the result; else nothing changes and there
    /// is no result.
    pub open spec fn took(pre: FragSys, addr: usize, post: FragSys, got: Option<Page>) -> bool {
        let k = addr as int / (pre.spec_page_sz() as int);
        &&& post.image() == pre.image()
        &&& post.spec_page_sz() == pre.spec_page_sz()
        &&& got == pre.page_for(addr)
        &&& post.available() == pre.available().remove(k)
        &&& if pre.available().contains(k) {
            post.pool().len() + 1 == pre.pool().len()
        } else {
            post.pool() == pre.pool()
        }
    }

    /// The machine can count what an image of `n` bytes with pages of `ps`
    /// bytes asks it to count.
    pub open spec fn countable(n: int, ps: int) -> bool {
        ps > 0 && n + ps <= usize::MAX && most_pages(ps) <= usize::MAX
    }

    /// The image `data` was cut into pages of `ps` bytes and no page was
    /// taken yet: the pool holds the `ceil(n / ps)` pages of the image in
    /// order, each assigned.
    pub open spec fn fresh(&self, data: Seq<u8>, ps: usize) -> bool {
        &&& self.wf()
        &&& self.image() == data
        &&& self.spec_page_sz() == ps
        &&& self.pool().len() == (data.len() + ps - 1) / (ps as int)
        &&& self.pool().len() == self.page_count()
        &&& forall|i: int|
            0 <= i < self.pool().len() ==> #[trigger] self.pool()[i] == page_at(i, ps as int)
                && self.pool()[i] is Assigned
        &&& self.numbers() == Seq::new(self.page_count() as nat, |i: int| i)
        &&& self.available() == Set::new(|k: int| 0 <= k < self.page_count())
        &&& self.taken() == Set::<int>::empty()
    }

    /// Cuts an image into pages of `page_sz` bytes and puts them all into
    /// the pool, in order.
    pub fn from_bytes(data: Vec<u8>, page_sz: usize) -> (fs: FragSys)
        requires
            Self::countable(data@.len() as int, page_sz as int),
        ensures
            fs.fresh(data@, page_sz),
    {
        let len: usize = data.len();
        let pg_count: usize = len / page_sz + (if len % page_sz > 0 {
            1
        } else {
            0
        });
        let mut pages: Vec<Page> = Vec::new();
        let mut pg: usize = 0;
        while pg < pg_count
            invariant
                page_sz > 0,
                len + page_sz <= usize::MAX,
                pg <= pg_count,
                pg_count == pages_of(len as int, page_sz as int),
                pages@.len() == pg,
                forall|i: int| 0 <= i < pg ==> #[trigger] pages@[i] == page_at(i, page_sz as int),
            decreases pg_count - pg,
        {
            proof {
                lemma_page_fits(len as int, page_sz as int, pg as int);
            }
            let start: usize = pg * page_sz;
            let stop: usize = start + page_sz;
            pages.push(Page::Assigned(Range { start, end: stop }));
            pg += 1;
        }
        let fs = FragSys { data, page_sz, pages };
        proof {
            let ps = page_sz as int;
            let count = fs.page_count();
            assert forall|i: int| 0 <= i < fs.pool().len() implies #[trigger] fs.numbers()[i]
                == i by {
                lemma_page_fits(len as int, ps, i);
            }
            assert(fs.numbers() =~= Seq::new(count as nat, |i: int| i));
            assert(fs.available() =~= Set::new(|k: int| 0 <= k < count)) by {
                assert forall|k: int| 0 <= k < count implies fs.numbers().contains(k) by {
                    assert(fs.numbers()[k] == k);
                }
            }
            assert(fs.taken() =~= Set::<int>::empty());
            lemma_pages_of(len as int, ps);
        }
        fs
    }

    /// Cuts an image into pages as `from_bytes` does, where the machine can
    /// count them; and says so where it cannot, or `page_sz` is zero.
    pub fn try_from_bytes(data: Vec<u8>, page_sz: usize) -> (r: Option<FragSys>)
        ensures
            r.is_some() <==> Self::countable(data@.len() as int, page_sz as int),
            r matches Some(fs) ==> fs.fresh(data@, page_sz),
    {
        if page_sz == 0 || data.len() > usize::MAX - page_sz {
            return None;
        }
        if 0x2_0000_0000u64 / (page_sz as u64) + 3 > usize::MAX as u64 {
            return None;
        }
        Some(FragSys::from_bytes(data, page_sz))
    }

    /// The size of a page.
    #[verifier::when_used_as_spec(spec_page_sz)]
    pub fn page_sz(&self) -> (ps: usize)
        ensures
            ps == self.spec_page_sz(),
    {
        self.page_sz
    }

    /// The bytes of the image.
    pub fn data(&self) -> (d: &Vec<u8>)
        ensures
            d@ == self.image(),
    {
        &self.data
    }

    /// The number of pages in the pool.
    pub fn pool_len(&self) -> (n: usize)
        ensures
            n == self.pool().len(),
    {
        self.pages.len()
    }

    /// Takes the page that holds `address` out of the pool.
    ///
    /// Gives the page if exactly one page of the pool holds the address,
    /// and nothing otherwise: when the page was taken before, or the address
    /// lies behind the last page.
    pub fn get_pg_for_addr(&mut self, address: usize) -> (got: Option<Page>)
        requires
            old(self).wf(),
        ensures
            final(self).wf(),
            Self::took(*old(self), address, *final(self), got),
            got.is_some() <==> old(self).available().contains(address as int / old(
                self,
            ).spec_page_sz() as int),
            got matches Some(p) ==> p.holds(address) && forall|other: usize|
                p.holds(other) ==> !final(self).available().contains(
                    other as int / final(self).spec_page_sz() as int,
                ),
    {
        let ghost ps = self.page_sz as int;
        let ghost k = address as int / ps;
        let ghost nums = self.numbers();
        let mut count: usize = 0;
        let mut hit: usize = 0;
        let mut i: usize = 0;
        while i < self.pages.len()
            invariant
                *self == *old(self),
                self.wf(),
                ps == self.page_sz as int,
                k == address as int / ps,
                nums == self.numbers(),
                i <= self.pages.len(),
                count <= 1,
                count == 0 ==> forall|j: int| 0 <= j < i ==> nums[j] != k,
                count == 1 ==> hit < i && nums[hit as int] == k,
            decreases self.pages.len() - i,
        {
            proof {
                let n = nums[i as int];
                assert(self.pool()[i as int] == page_at(n, ps));
                lemma_page_fits(self.image().len() as int, ps, n);
                lemma_page_of_addr(n, ps, address as int);
            }
            if self.pages[i].contains(address) {
                proof {
                    if count == 1 {
                        assert(nums[hit as int] == nums[i as int]);
                    }
                }
                count += 1;
                hit = i;
            }
            i += 1;
        }
        if count == 1 {
            proof {
                assert(nums.contains(k));
                lemma_page_fits(self.image().len() as int, ps, k);
                lemma_page_of_addr(k, ps, address as int);
            }
            let page = self.pages.swap_remove(hit);
            proof {
                let after = self.numbers();
                let last = nums.len() - 1;
                assert(after =~= nums.update(hit as int, nums[last]).drop_last());
                assert(after.no_duplicates());
                assert(!after.contains(k));
                assert(self.available() =~= old(self).available().remove(k)) by {
                    assert forall|x: int| old(self).available().remove(k).contains(
                        x,
                    ) implies after.contains(x) by {
                        let j = choose|j: int| 0 <= j < nums.len() && nums[j] == x;
                        if j == last {
                            assert(after[hit as int] == x);
                        } else {
                            assert(after[j] == x);
                        }
                    }
                    assert forall|x: int| after.contains(x) implies old(
                        self,
                    ).available().remove(k).contains(x) by {
                        let j = choose|j: int| 0 <= j < after.len() && after[j] == x;
                        if j == hit {
                            assert(nums[last] == x);
                        } else {
                            assert(nums[j] == x);
                        }
                    }
                }
                assert forall|other: usize| page.holds(other) implies !self.available().contains(
                    other as int / ps,
                ) by {
                    lemma_page_of_addr(k, ps, other as int);
                }
            }
            Some(page)
        } else {
            proof {
                assert(!nums.contains(k));
                assert(self.available() =~= old(self).available().remove(k));
            }
            None
        }
    }

    /// Every offset at which `pattern` stands in the image, from left to
    /// right, no match inside the one before.
    pub fn find_bytes(&self, pattern: &[u8]) -> (findings: Vec<usize>)
        requires
            pattern@.len() > 0,
        ensures
            offsets(findings@) == find_all(self.image(), pattern@),
            forall|k: int|
                0 <= k < findings@.len() ==> matches_at(
                    self.image(),
                    pattern@,
                    #[trigger] findings@[k] as int,
                ),
            no_self_overlap(pattern@) ==> forall|i: int|
                matches_at(self.image(), pattern@, i) ==> exists|k: int|
                    0 <= k < findings@.len() && #[trigger] findings@[k] == i,
    {
        find_bytes(self.data.as_slice(), pattern)
    }

    /// Every offset of the image at which the magic of an end of central
    /// directory record stands.
    pub fn find_eocds(&self) -> (findings: Vec<usize>)
        ensures
            offsets(findings@) == find_all(self.image(), eocd_magic()),
            forall|i: int|
                matches_at(self.image(), eocd_magic(), i) <==> exists|k: int|
                    0 <= k < findings@.len() && #[trigger] findings@[k] == i,
    {
        let magic: [u8; 4] = [0x50, 0x4b, 0x05, 0x06];
        proof {
            assert(magic@ =~= eocd_magic());
            lemma_magic_no_self_overlap(0x05, 0x06);
        }
        self.find_bytes(magic.as_slice())
    }

    /// Every offset of the image at which the magic of a local file header
    /// stands.
    pub fn find_lfs(&self) -> (findings: Vec<usize>)
        ensures
            offsets(findings@) == find_all(self.image(), lf_magic()),
            forall|i: int|
                matches_at(self.image(), lf_magic(), i) <==> exists|k: int|
                    0 <= k < findings@.len() && #[trigger] findings@[k] == i,
    {
        let magic: [u8; 4] = [0x50, 0x4b, 0x03, 0x04];
        proof {
            assert(magic@ =~= lf_magic());
            lemma_magic_no_self_overlap(0x03, 0x04);
        }
        self.find_bytes(magic.as_slice())
    }

    /// The skeletons of the archives of the image: at every offset at which
    /// the magic of an end of central directory record stands, from left to
    /// right, the skeleton that can be made there, if one can. Each takes
    /// the page of its record out of the pool. A skeleton with more pages
    /// up to its record than the pool holds is dropped: the pool is counted
    /// as it is before the page of the record is taken, and the page stays
    /// out of the pool.
    pub fn find_zips(&mut self) -> (zips: Vec<ZipFile>)
        requires
            old(self).wf(),
        ensures
            final(self).wf(),
            final(self).image() == old(self).image(),
            final(self).spec_page_sz() == old(self).spec_page_sz(),
            (zip_views(zips@), final(self).available()) == skeletons_at(
                old(self).image(),
                old(self).spec_page_sz() as int,
                old(self).available(),
                find_all(old(self).image(), eocd_magic()),
            ),
            final(self).available().subset_of(old(self).available()),
            owned_apart(*final(self), zips@),
    {
        let eocd_list = self.find_eocds();
        proof {
            lemma_pool_within(*self);
            lemma_skeletons_apart(
                self.image(),
                self.spec_page_sz() as int,
                self.available(),
                offsets(eocd_list@),
            );
        }
        let mut zips: Vec<ZipFile> = Vec::new();
        let mut i: usize = 0;
        let ghost ptrs = offsets(eocd_list@);
        assert(ptrs.subrange(0, 0) =~= Seq::<int>::empty());
        assert(zip_views(zips@) =~= Seq::empty());
        while i < eocd_list.len()
            invariant
                i <= eocd_list@.len(),
                ptrs == offsets(eocd_list@),
                self.wf(),
                self.image() == old(self).image(),
                self.spec_page_sz() == old(self).spec_page_sz(),
                (zip_views(zips@), self.available()) == skeletons_at(
                    old(self).image(),
                    old(self).spec_page_sz() as int,
                    old(self).available(),
                    ptrs.subrange(0, i as int),
                ),
            decreases eocd_list.len() - i,
        {
            let ptr: usize = eocd_list[i];
            let ghost before = zip_views(zips@);
            proof {
                lemma_pool_partition(*self);
                assert(ptrs.subrange(0, i + 1).drop_last() =~= ptrs.subrange(0, i as int));
                assert(ptrs.subrange(0, i + 1).last() == ptr);
            }
            let held: usize = self.pool_len();
            match ZipFile::new(self, ptr) {
                Ok(zf) => {
                    if zf.page_count() - 1 <= held {
                        zips.push(zf);
                        assert(zip_views(zips@) =~= before.push(zf@));
                    }
                },
                Err(_) => {
                    assert(self.available() =~= self.numbers().to_set());
                },
            }
            i += 1;
        }
        assert(ptrs.subrange(0, i as int) =~= ptrs);
        zips
    }

    /// The central directory headers of the image: at every offset at which
    /// their magic stands, the header that parses there, if one does. The
    /// image and the pool stay as they are.
    pub fn find_cds(&mut self) -> (results: Vec<CDInstance>)
        ensures
            *final(self) == *old(self),
            views_of(results@) == cds_at(
                old(self).image(),
                find_all(old(self).image(), cd_magic()),
            ),
    {
        let magic: [u8; 4] = [0x50, 0x4b, 0x01, 0x02];
        proof {
            assert(magic@ =~= cd_magic());
        }
        let cd_ptrs = find_bytes(self.data.as_slice(), magic.as_slice());
        collect_cds(self.data.as_slice(), &cd_ptrs)
    }

    /// The first of the offsets `lfp` at which the bytes of `lf` stand in
    /// the image.
    pub fn find_lf(&self, lf: &LF, lfp: &[usize]) -> (found: Option<usize>)
        ensures
            match first_hit(self.image(), lf@.bytes(), offsets(lfp@)) {
                Some(p) => found == Some(p as usize) && p as usize == p,
                None => found.is_none(),
            },
            match found {
                Some(p) => exists|k: int|
                    0 <= k < lfp@.len() && #[trigger] lfp@[k] == p && matches_at(
                        self.image(),
                        lf@.bytes(),
                        p as int,
                    ) && forall|j: int|
                        0 <= j < k ==> !matches_at(
                            self.image(),
                            lf@.bytes(),
                            #[trigger] lfp@[j] as int,
                        ),
                None => forall|j: int|
                    0 <= j < lfp@.len() ==> !matches_at(
                        self.image(),
                        lf@.bytes(),
                        #[trigger] lfp@[j] as int,
                    ),
            },
    {
        let bytes = lf.unparse();
        let n: usize = bytes.len();
        let ghost ptrs = offsets(lfp@);
        let mut k: usize = 0;
        assert(ptrs.subrange(0, ptrs.len() as int) =~= ptrs);
        while k < lfp.len()
            invariant
                n == bytes@.len(),
                bytes@ == lf@.bytes(),
                ptrs == offsets(lfp@),
                k <= lfp@.len(),
                first_hit(self.image(), lf@.bytes(), ptrs) == first_hit(
                    self.image(),
                    lf@.bytes(),
                    ptrs.subrange(k as int, ptrs.len() as int),
                ),
                forall|j: int|
                    0 <= j < k ==> !matches_at(
                        self.image(),
                        lf@.bytes(),
                        #[trigger] lfp@[j] as int,
                    ),
            decreases lfp.len() - k,
        {
            let p: usize = lfp[k];
            proof {
                let here = ptrs.subrange(k as int, ptrs.len() as int);
                assert(here[0] == p);
                assert(here.drop_first() =~= ptrs.subrange(k + 1, ptrs.len() as int));
            }
            if p <= self.data.len() && n <= self.data.len() - p {
                if same_bytes(slice_subrange(self.data.as_slice(), p, p + n), bytes.as_slice()) {
                    return Some(p);
                }
            }
            k += 1;
        }
        None
    }
}

/// Whether two runs of bytes are the same.
pub fn same_bytes(a: &[u8], b: &[u8]) -> (same: bool)
    ensures
        same == (a@ == b@),
{
    if a.len() != b.len() {
        return false;
    }
    let mut i: usize = 0;
    while i < a.len()
        invariant
            a.len() == b.len(),
            i <= a.len(),
            forall|j: int| 0 <= j < i ==> a@[j] == b@[j],
        decreases a.len() - i,
    {
        if a[i] != b[i] {
            return false;
        }
        i += 1;
    }
    assert(a@ =~= b@);
    true
}

/// Between the pages in the pool and the pages taken out, every page of the
/// image is counted once.
pub proof fn lemma_pool_partition(fs: FragSys)
    requires
        fs.wf(),
    ensures
        fs.available().finite(),
        fs.taken().finite(),
        fs.available().disjoint(fs.taken()),
        fs.available().len() == fs.pool().len(),
        fs.available().len() + fs.taken().len() == fs.page_count(),
{
    let all = vstd::set_lib::set_int_range(0, fs.page_count());
    assert(fs.page_count() >= 0) by (nonlinear_arith)
        requires
            fs.page_count() == pages_of(fs.image().len() as int, fs.spec_page_sz() as int),
            fs.spec_page_sz() > 0,
    ;
    vstd::set_lib::lemma_int_range(0, fs.page_count());
    fs.numbers().unique_seq_to_set();
    vstd::seq_lib::seq_to_set_is_finite(fs.numbers());
    assert(fs.available().subset_of(all)) by {
        assert forall|k: int| fs.available().contains(k) implies all.contains(k) by {
            let i = choose|i: int| 0 <= i < fs.numbers().len() && fs.numbers()[i] == k;
            assert(0 <= fs.numbers()[i] < fs.page_count());
        }
    }
    assert(fs.taken() =~= all.difference(fs.available()));
    vstd::set_lib::lemma_len_difference(all, fs.available());
    vstd::set_lib::lemma_set_disjoint_lens(fs.available(), fs.taken());
    assert(fs.available().union(fs.taken()) =~= all);
}

/// A page that was taken out is not given a second time, whatever was taken
/// in between: a later request for any address of the same page finds
/// nothing.
pub proof fn lemma_page_taken_once(
    before: FragSys,
    addr: usize,
    after: FragSys,
    got: Option<Page>,
    later: FragSys,
    again: usize,
    at_last: FragSys,
    got_again: Option<Page>,
)
    requires
        before.wf(),
        FragSys::took(before, addr, after, got),
        got.is_some(),
        later.spec_page_sz() == after.spec_page_sz(),
        later.available().subset_of(after.available()),
        FragSys::took(later, again, at_last, got_again),
        got->Some_0.holds(again),
    ensures
        got_again.is_none(),
{
    let ps = before.spec_page_sz() as int;
    let k = addr as int / ps;
    let i = choose|i: int| 0 <= i < before.numbers().len() && before.numbers()[i] == k;
    assert(0 <= before.numbers()[i] < before.page_count());
    lemma_page_fits(before.image().len() as int, ps, k);
    lemma_page_of_addr(k, ps, again as int);
}

} // verus!
