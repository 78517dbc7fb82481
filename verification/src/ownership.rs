//! Every page has one place: in the pool, or in one slot of one skeleton.

use crate::analysis::{sorted_by_lf, Found};
use crate::chunks::CdView;
use crate::pool::{lemma_page_fits, number_of, page_at, pages_of, FragSys, Page};
use crate::recovery::{
    archives_rendered, attributed, best_of, clusters_attributed, lemma_best_of, lf_placed,
    lf_step, pages_taken, ptrs_of, with_lf_pages,
};
use crate::skeleton::{plan_skeleton, skeletons_at, spliced, zip_views, ZipFile, ZipView};
use vstd::prelude::*;

verus! {

/// `avail` holds only numbers of pages of an image of `n` bytes cut into
/// pages of `ps` bytes.
pub open spec fn pool_within(avail: Set<int>, n: int, ps: int) -> bool {
    forall|k: int| avail.contains(k) ==> 0 <= k < pages_of(n, ps)
}

/// `p` is a page of an image of `n` bytes cut into pages of `ps` bytes, and
/// the pool `avail` does not hold it.
pub open spec fn is_page_out(p: Page, n: int, ps: int, avail: Set<int>) -> bool {
    let k = number_of(p, ps);
    0 <= k < pages_of(n, ps) && p == page_at(k, ps) && !avail.contains(k)
}

/// Slot `i` of skeleton `a` holds a page.
pub open spec fn placed(zips: Seq<ZipView>, a: int, i: int) -> bool {
    0 <= a < zips.len() && 0 <= i < zips[a].slots.len() && zips[a].slots[i] is Assigned
}

/// Every page that stands in a skeleton is a whole page of the image that
/// has left the pool, and no page stands in two slots, of one skeleton or
/// of two.
pub open spec fn pages_apart(n: int, ps: int, zips: Seq<ZipView>, avail: Set<int>) -> bool {
    &&& ps > 0
    &&& 0 <= n
    &&& n + ps <= usize::MAX
    &&& pool_within(avail, n, ps)
    &&& forall|a: int, i: int| #[trigger]
        placed(zips, a, i) ==> is_page_out(zips[a].slots[i], n, ps, avail)
    &&& forall|a: int, i: int, b: int, j: int|
        #![trigger placed(zips, a, i), placed(zips, b, j)]
        placed(zips, a, i) && placed(zips, b, j) && (a != b || i != j) ==> zips[a].slots[i]
            != zips[b].slots[j]
}

/// `pages_apart` of the skeletons `zips` and the pool of `fs`.
pub open spec fn owned_apart(fs: FragSys, zips: Seq<ZipFile>) -> bool {
    pages_apart(
        fs.image().len() as int,
        fs.spec_page_sz() as int,
        zip_views(zips),
        fs.available(),
    )
}

/// The numbers of the pages that stand in the skeletons.
pub open spec fn pages_in(zips: Seq<ZipView>, ps: int) -> Set<int> {
    Set::new(
        |k: int|
            exists|a: int, i: int| #[trigger] placed(zips, a, i) && number_of(zips[a].slots[i], ps) == k,
    )
}

/// The pages that stand in the skeletons are among those taken out of the
/// pool: pool and skeletons together hold no more pages than the image has.
pub proof fn lemma_pages_counted(fs: FragSys, zips: Seq<ZipFile>)
    requires
        fs.wf(),
        owned_apart(fs, zips),
    ensures
        pages_in(zip_views(zips), fs.spec_page_sz() as int).subset_of(fs.taken()),
        pages_in(zip_views(zips), fs.spec_page_sz() as int).finite(),
        fs.available().len() + pages_in(zip_views(zips), fs.spec_page_sz() as int).len()
            <= fs.page_count(),
{
    let ps = fs.spec_page_sz() as int;
    let views = zip_views(zips);
    let inside = pages_in(views, ps);
    crate::pool::lemma_pool_partition(fs);
    assert forall|k: int| inside.contains(k) implies fs.taken().contains(k) by {
        let (a, i) = choose|a: int, i: int| #[trigger]
            placed(views, a, i) && number_of(views[a].slots[i], ps) == k;
        assert(is_page_out(views[a].slots[i], fs.image().len() as int, ps, fs.available()));
    }
    vstd::set_lib::lemma_len_subset(inside, fs.taken());
}

/// The pool of a well-formed image holds only pages of the image.
pub proof fn lemma_pool_within(fs: FragSys)
    requires
        fs.wf(),
    ensures
        pool_within(fs.available(), fs.image().len() as int, fs.spec_page_sz() as int),
        pages_apart(
            fs.image().len() as int,
            fs.spec_page_sz() as int,
            Seq::<ZipView>::empty(),
            fs.available(),
        ),
{
    assert forall|k: int| fs.available().contains(k) implies 0 <= k < fs.page_count() by {
        let i = choose|i: int| 0 <= i < fs.numbers().len() && fs.numbers()[i] == k;
        assert(0 <= fs.numbers()[i] < fs.page_count());
    }
}

/// A page of the image has the number that it was made from.
proof fn lemma_page_number(n: int, ps: int, k: int)
    requires
        ps > 0,
        0 <= n,
        n + ps <= usize::MAX,
        0 <= k < pages_of(n, ps),
    ensures
        number_of(page_at(k, ps), ps) == k,
        page_at(k, ps) is Assigned,
{
    lemma_page_fits(n, ps, k);
}

/// Fewer pages in the pool keep what stands in the skeletons apart.
proof fn lemma_apart_with_less(n: int, ps: int, zips: Seq<ZipView>, avail: Set<int>, left: Set<int>)
    requires
        pages_apart(n, ps, zips, avail),
        left.subset_of(avail),
    ensures
        pages_apart(n, ps, zips, left),
{
    assert forall|a: int, i: int| #[trigger] placed(zips, a, i) implies is_page_out(
        zips[a].slots[i],
        n,
        ps,
        left,
    ) by {
        assert(is_page_out(zips[a].slots[i], n, ps, avail));
    }
}

/// The pages taken for a list of offsets were in the pool and are there no
/// longer, and no page is taken twice.
pub proof fn lemma_pages_taken(n: int, ps: int, avail: Set<int>, ptrs: Seq<usize>)
    requires
        ps > 0,
        0 <= n,
        n + ps <= usize::MAX,
        pool_within(avail, n, ps),
    ensures
        ({
            let (pages, left) = pages_taken(ps, avail, ptrs);
            &&& left.subset_of(avail)
            &&& forall|i: int|
                0 <= i < pages.len() ==> avail.contains(number_of(#[trigger] pages[i], ps))
                    && is_page_out(pages[i], n, ps, left)
            &&& forall|i: int, j: int|
                0 <= i < j < pages.len() ==> #[trigger] pages[i] != #[trigger] pages[j]
        }),
    decreases ptrs.len(),
{
    if ptrs.len() > 0 {
        lemma_pages_taken(n, ps, avail, ptrs.drop_last());
        let (pages0, left0) = pages_taken(ps, avail, ptrs.drop_last());
        let (pages, left) = pages_taken(ps, avail, ptrs);
        let k = ptrs.last() as int / ps;
        if left0.contains(k) {
            lemma_page_number(n, ps, k);
            assert forall|i: int| 0 <= i < pages.len() implies avail.contains(
                number_of(#[trigger] pages[i], ps),
            ) && is_page_out(pages[i], n, ps, left) by {
                if i < pages0.len() {
                    assert(is_page_out(pages0[i], n, ps, left0));
                }
            }
            assert forall|i: int, j: int| 0 <= i < j < pages.len() implies #[trigger] pages[i]
                != #[trigger] pages[j] by {
                if j == pages0.len() {
                    assert(is_page_out(pages0[i], n, ps, left0));
                } else {
                    assert(pages0[i] != pages0[j]);
                }
            }
        }
    }
}

/// Giving a cluster to a skeleton keeps the pages apart.
pub proof fn lemma_attributed_apart(
    n: int,
    ps: int,
    zips: Seq<ZipView>,
    avail: Set<int>,
    b: int,
    ptrs: Seq<usize>,
)
    requires
        pages_apart(n, ps, zips, avail),
        0 <= b < zips.len(),
    ensures
        ({
            let (z, left) = attributed(ps, zips[b], avail, ptrs);
            pages_apart(n, ps, zips.update(b, z), left) && left.subset_of(avail)
        }),
{
    let zf = zips[b];
    let (z, left) = attributed(ps, zf, avail, ptrs);
    let after = zips.update(b, z);
    let (pages, rest) = pages_taken(ps, avail, ptrs);
    let start = zf.eocd.cd_offset + zf.init_offs;
    let idx = start / ps;
    lemma_pages_taken(n, ps, avail, ptrs);
    assert(idx >= 0) by (nonlinear_arith)
        requires
            idx == start / ps,
            start >= 0,
            ps > 0,
    ;
    if start > usize::MAX {
        assert(after =~= zips);
    } else if idx > zf.slots.len() {
        assert(after =~= zips);
        lemma_apart_with_less(n, ps, zips, avail, left);
    } else {
        let room = zf.slots.len() - idx;
        let put = if pages.len() <= room {
            pages
        } else {
            pages.subrange(0, room)
        };
        let m = put.len() as int;
        assert(z.slots == spliced(zf.slots, idx, put));
        assert(z.slots.len() == zf.slots.len());
        lemma_apart_with_less(n, ps, zips, avail, left);
        // where each slot of the skeletons afterwards comes from
        assert forall|a: int, i: int| #[trigger] placed(after, a, i) implies is_page_out(
            after[a].slots[i],
            n,
            ps,
            left,
        ) && (if a == b && idx <= i < idx + m {
            after[a].slots[i] == pages[i - idx] && avail.contains(
                number_of(after[a].slots[i], ps),
            )
        } else {
            placed(zips, a, i) && after[a].slots[i] == zips[a].slots[i] && !avail.contains(
                number_of(after[a].slots[i], ps),
            )
        }) by {
            if a == b && idx <= i < idx + m {
                assert(z.slots[i] == put[i - idx]);
                assert(is_page_out(pages[i - idx], n, ps, left));
            } else {
                if a == b {
                    assert(z.slots[i] == zf.slots[i]);
                }
                assert(placed(zips, a, i));
                assert(is_page_out(zips[a].slots[i], n, ps, left));
                assert(is_page_out(zips[a].slots[i], n, ps, avail));
            }
        }
        assert forall|a: int, i: int, c: int, j: int|
            #![trigger placed(after, a, i), placed(after, c, j)]
            placed(after, a, i) && placed(after, c, j) && (a != c || i != j) implies after[a].slots[i]
                != after[c].slots[j] by {
            let new_a = a == b && idx <= i < idx + m;
            let new_c = c == b && idx <= j < idx + m;
            if new_a && new_c {
                if i < j {
                    assert(pages[i - idx] != pages[j - idx]);
                } else {
                    assert(pages[j - idx] != pages[i - idx]);
                }
            } else if !new_a && !new_c {
                assert(placed(zips, a, i) && placed(zips, c, j));
            }
        }
    }
}

/// Following one header to its local file header keeps the pages apart.
pub proof fn lemma_lf_step_apart(
    image: Seq<u8>,
    ps: int,
    lfp: Seq<int>,
    zips: Seq<ZipView>,
    avail: Set<int>,
    b: int,
    cd: CdView,
)
    requires
        pages_apart(image.len() as int, ps, zips, avail),
        0 <= b < zips.len(),
    ensures
        ({
            let (z, left) = lf_step(image, ps, lfp, zips[b], avail, cd);
            pages_apart(image.len() as int, ps, zips.update(b, z), left) && left.subset_of(avail)
        }),
{
    let n = image.len() as int;
    let zf = zips[b];
    let (z, left) = lf_step(image, ps, lfp, zf, avail, cd);
    let after = zips.update(b, z);
    let target = cd.lf_offset + zf.init_offs;
    match crate::scan::first_hit(image, cd.to_lf().bytes(), lfp) {
        None => {
            assert(after =~= zips);
        },
        Some(ptr) => {
            let k = ptr / ps;
            if target > usize::MAX || !avail.contains(k) {
                assert(after =~= zips);
            } else {
                lemma_page_number(n, ps, k);
                lemma_apart_with_less(n, ps, zips, avail, left);
                let t = target / ps;
                assert(t >= 0) by (nonlinear_arith)
                    requires
                        t == target / ps,
                        target >= 0,
                        ps > 0,
                ;
                if t < zf.slots.len() {
                    assert forall|a: int, i: int| #[trigger] placed(after, a, i) implies is_page_out(
                        after[a].slots[i],
                        n,
                        ps,
                        left,
                    ) && (if a == b && i == t {
                        after[a].slots[i] == page_at(k, ps)
                    } else {
                        placed(zips, a, i) && after[a].slots[i] == zips[a].slots[i]
                            && number_of(after[a].slots[i], ps) != k
                    }) by {
                        if !(a == b && i == t) {
                            assert(placed(zips, a, i));
                            assert(is_page_out(zips[a].slots[i], n, ps, left));
                            assert(is_page_out(zips[a].slots[i], n, ps, avail));
                        }
                    }
                    assert forall|a: int, i: int, c: int, j: int|
                        #![trigger placed(after, a, i), placed(after, c, j)]
                        placed(after, a, i) && placed(after, c, j) && (a != c || i != j) implies after[a].slots[i]
                            != after[c].slots[j] by {
                        let new_a = a == b && i == t;
                        let new_c = c == b && j == t;
                        if !new_a && !new_c {
                            assert(placed(zips, a, i) && placed(zips, c, j));
                        }
                    }
                } else {
                    assert(after =~= zips);
                }
            }
        },
    }
}

/// Following a list of headers keeps the pages apart.
pub proof fn lemma_lf_placed_apart(
    image: Seq<u8>,
    ps: int,
    lfp: Seq<int>,
    zips: Seq<ZipView>,
    avail: Set<int>,
    b: int,
    cds: Seq<Found>,
)
    requires
        pages_apart(image.len() as int, ps, zips, avail),
        0 <= b < zips.len(),
    ensures
        ({
            let (z, left) = lf_placed(image, ps, lfp, zips[b], avail, cds);
            pages_apart(image.len() as int, ps, zips.update(b, z), left) && left.subset_of(avail)
        }),
    decreases cds.len(),
{
    if cds.len() == 0 {
        assert(zips.update(b, zips[b]) =~= zips);
    } else {
        lemma_lf_placed_apart(image, ps, lfp, zips, avail, b, cds.drop_last());
        let (z0, a0) = lf_placed(image, ps, lfp, zips[b], avail, cds.drop_last());
        let mid = zips.update(b, z0);
        lemma_lf_step_apart(image, ps, lfp, mid, a0, b, cds.last().1);
        let (z, left) = lf_step(image, ps, lfp, z0, a0, cds.last().1);
        assert(mid.update(b, z) =~= zips.update(b, z));
    }
}

/// Making skeletons takes pages out of the pool and keeps them apart.
pub proof fn lemma_skeletons_apart(image: Seq<u8>, ps: int, avail: Set<int>, ptrs: Seq<int>)
    requires
        ps > 0,
        image.len() + ps <= usize::MAX,
        pool_within(avail, image.len() as int, ps),
        forall|k: int| 0 <= k < ptrs.len() ==> 0 <= #[trigger] ptrs[k],
    ensures
        ({
            let (zips, left) = skeletons_at(image, ps, avail, ptrs);
            pages_apart(image.len() as int, ps, zips, left) && left.subset_of(avail)
        }),
    decreases ptrs.len(),
{
    let n = image.len() as int;
    if ptrs.len() > 0 {
        lemma_skeletons_apart(image, ps, avail, ptrs.drop_last());
        let (zips0, left0) = skeletons_at(image, ps, avail, ptrs.drop_last());
        let (zips, left) = skeletons_at(image, ps, avail, ptrs);
        let ptr = ptrs.last();
        let k = ptr / ps;
        match plan_skeleton(image, ps, ptr) {
            Err(_) => {},
            Ok(plan) => {
                let got = if left0.contains(k) {
                    Some(page_at(k, ps))
                } else {
                    None
                };
                let last = zips0.len() as int;
                crate::skeleton::lemma_plan_geometry(image, ps, ptr);
                lemma_apart_with_less(n, ps, zips0, left0, left);
                if left0.contains(k) {
                    lemma_page_number(n, ps, k);
                }
                assert forall|a: int, i: int| #[trigger] placed(zips, a, i) implies is_page_out(
                    zips[a].slots[i],
                    n,
                    ps,
                    left,
                ) && (if a == last {
                    left0.contains(k) && i == plan.pg_count - 1 && zips[a].slots[i] == page_at(
                        k,
                        ps,
                    )
                } else {
                    placed(zips0, a, i) && zips[a].slots[i] == zips0[a].slots[i] && (
                    left0.contains(k) ==> number_of(zips[a].slots[i], ps) != k)
                }) by {
                    if a != last {
                        assert(placed(zips0, a, i));
                        assert(is_page_out(zips0[a].slots[i], n, ps, left));
                        assert(is_page_out(zips0[a].slots[i], n, ps, left0));
                    }
                }
                assert forall|a: int, i: int, c: int, j: int|
                    #![trigger placed(zips, a, i), placed(zips, c, j)]
                    placed(zips, a, i) && placed(zips, c, j) && (a != c || i != j) implies zips[a].slots[i]
                        != zips[c].slots[j] by {
                    if a != last && c != last {
                        assert(placed(zips0, a, i) && placed(zips0, c, j));
                    }
                }
            },
        }
    }
}

/// Giving clusters to skeletons keeps the pages apart.
pub proof fn lemma_clusters_attributed_apart(
    n: int,
    ps: int,
    zips: Seq<ZipView>,
    avail: Set<int>,
    clusters: Seq<Seq<Found>>,
)
    requires
        pages_apart(n, ps, zips, avail),
    ensures
        ({
            let (zs, left) = clusters_attributed(ps, zips, avail, clusters);
            pages_apart(n, ps, zs, left) && left.subset_of(avail) && zs.len() == zips.len()
        }),
    decreases clusters.len(),
{
    if clusters.len() > 0 {
        lemma_clusters_attributed_apart(n, ps, zips, avail, clusters.drop_last());
        let (zs, a) = clusters_attributed(ps, zips, avail, clusters.drop_last());
        let c = sorted_by_lf(clusters.last());
        if zs.len() > 0 {
            lemma_best_of(zs, c.len() as int);
            lemma_attributed_apart(n, ps, zs, a, best_of(zs, c.len() as int), ptrs_of(c));
        }
    }
}

/// Looking for the pages of local file headers, skeleton after skeleton,
/// keeps the pages apart.
pub proof fn lemma_archives_rendered_apart(
    image: Seq<u8>,
    ps: int,
    zips: Seq<ZipView>,
    avail: Set<int>,
    upto: int,
)
    requires
        pages_apart(image.len() as int, ps, zips, avail),
        upto <= zips.len(),
    ensures
        ({
            let (zs, left, out) = archives_rendered(image, ps, zips, avail, upto);
            pages_apart(image.len() as int, ps, zs, left) && left.subset_of(avail) && zs.len()
                == zips.len()
        }),
    decreases upto,
{
    if upto > 0 {
        lemma_archives_rendered_apart(image, ps, zips, avail, upto - 1);
        let (zs, a, out) = archives_rendered(image, ps, zips, avail, upto - 1);
        let shown = crate::skeleton::rendered(zs[upto - 1].slots, image);
        lemma_lf_placed_apart(
            image,
            ps,
            crate::scan::find_all(image, crate::chunks::lf_magic()),
            zs,
            a,
            upto - 1,
            crate::chunks::cds_at(shown, crate::scan::find_all(shown, crate::chunks::cd_magic())),
        );
    }
}

} // verus!
