//! Putting archives back together: clusters of central directory headers are
//! given to skeletons, the pages of the headers and of the local file
//! headers that they announce are moved from the pool into the skeletons,
//! and the skeletons are rendered.

use crate::analysis::{
    cluster, cluster_views, clusters_of, groups_of, measurable, sorted_by_lf, Cluster,
    ClusteringError, Found, Instance,
};
use crate::chunks::{cd_magic, cds_at, lf_magic, views_of, CDInstance, CdView, LF};
use crate::ownership::{
    lemma_archives_rendered_apart, lemma_clusters_attributed_apart, owned_apart,
};
use crate::pool::{page_at, FragSys, Page};
use crate::scan::{find_all, first_hit};
use crate::skeleton::{rendered, spliced, zip_views, ZipFile, ZipView};
use vstd::prelude::*;

verus! {

/// The page size that is taken where none is given.
pub const DEFAULT_PAGE_SZ: usize = 0x400;

/// How badly an archive of `tot_entries` entries fits a cluster of `n`
/// headers: the square of the difference.
pub open spec fn misfit(tot_entries: u16, n: int) -> int {
    (tot_entries - n) * (tot_entries - n)
}

/// The place of the skeleton that fits a cluster of `n` headers best: the
/// first among those of least misfit.
pub open spec fn best_of(zips: Seq<ZipView>, n: int) -> int
    decreases zips.len(),
{
    if zips.len() <= 1 {
        0
    } else {
        let b = best_of(zips.drop_last(), n);
        if misfit(zips.last().eocd.tot_entries, n) < misfit(zips[b].eocd.tot_entries, n) {
            zips.len() - 1
        } else {
            b
        }
    }
}

/// The best place is a place, no skeleton fits better, and none before it
/// fits as well.
pub proof fn lemma_best_of(zips: Seq<ZipView>, n: int)
    requires
        zips.len() > 0,
    ensures
        0 <= best_of(zips, n) < zips.len(),
        forall|j: int|
            0 <= j < zips.len() ==> misfit(zips[best_of(zips, n)].eocd.tot_entries, n) <= misfit(
                #[trigger] zips[j].eocd.tot_entries,
                n,
            ),
        forall|j: int|
            0 <= j < best_of(zips, n) ==> misfit(zips[best_of(zips, n)].eocd.tot_entries, n)
                < misfit(#[trigger] zips[j].eocd.tot_entries, n),
    decreases zips.len(),
{
    if zips.len() > 1 {
        let head = zips.drop_last();
        lemma_best_of(head, n);
        let b = best_of(head, n);
        assert forall|j: int| 0 <= j < zips.len() implies misfit(
            zips[best_of(zips, n)].eocd.tot_entries,
            n,
        ) <= misfit(#[trigger] zips[j].eocd.tot_entries, n) by {
            if j < head.len() {
                assert(head[j] == zips[j]);
            }
        }
        assert forall|j: int| 0 <= j < best_of(zips, n) implies misfit(
            zips[best_of(zips, n)].eocd.tot_entries,
            n,
        ) < misfit(#[trigger] zips[j].eocd.tot_entries, n) by {
            assert(head[j] == zips[j]);
        }
    }
}

/// The misfit as the machine computes it.
fn misfit_of(tot_entries: u16, n: usize) -> (m: u128)
    ensures
        m == misfit(tot_entries, n as int),
{
    let a: u128 = tot_entries as u128;
    let b: u128 = n as u128;
    let d: u128 = if a >= b {
        a - b
    } else {
        b - a
    };
    assert(d * d <= u128::MAX && d * d == (a - b) * (a - b)) by (nonlinear_arith)
        requires
            d <= 0xffff_ffff_ffff_ffff,
            d == a - b || d == b - a,
    ;
    d * d
}

/// Chooses the skeleton for a cluster of `n` headers: the one whose record
/// announces a number of entries nearest to `n`, the first of them where
/// several are as near. There is none where there is no skeleton.
pub fn best_match(zips: &Vec<ZipFile>, n: usize) -> (best: Option<usize>)
    ensures
        best.is_none() <==> zips@.len() == 0,
        best matches Some(b) ==> b == best_of(zip_views(zips@), n as int) && b < zips@.len(),
        best matches Some(b) ==> forall|j: int|
            0 <= j < zips@.len() ==> misfit(zips@[b as int]@.eocd.tot_entries, n as int) <= misfit(
                #[trigger] zips@[j]@.eocd.tot_entries,
                n as int,
            ),
        best matches Some(b) ==> forall|j: int|
            0 <= j < b ==> misfit(zips@[b as int]@.eocd.tot_entries, n as int) < misfit(
                #[trigger] zips@[j]@.eocd.tot_entries,
                n as int,
            ),
{
    if zips.len() == 0 {
        return None;
    }
    proof {
        let views = zip_views(zips@);
        lemma_best_of(views, n as int);
        assert forall|j: int| 0 <= j < zips@.len() implies misfit(
            views[best_of(views, n as int)].eocd.tot_entries,
            n as int,
        ) <= misfit(#[trigger] zips@[j]@.eocd.tot_entries, n as int) by {
            assert(views[j] == zips@[j]@);
        }
        assert forall|j: int| 0 <= j < best_of(views, n as int) implies misfit(
            views[best_of(views, n as int)].eocd.tot_entries,
            n as int,
        ) < misfit(#[trigger] zips@[j]@.eocd.tot_entries, n as int) by {
            assert(views[j] == zips@[j]@);
        }
    }
    let mut best: usize = 0;
    let mut least: u128 = misfit_of(zips[0].eocd().tot_entries, n);
    let mut i: usize = 1;
    let ghost views = zip_views(zips@);
    assert(views.subrange(0, 1).len() == 1);
    while i < zips.len()
        invariant
            1 <= i <= zips@.len(),
            views == zip_views(zips@),
            best < i,
            best == best_of(views.subrange(0, i as int), n as int),
            least == misfit(views[best as int].eocd.tot_entries, n as int),
        decreases zips.len() - i,
    {
        proof {
            assert(views.subrange(0, i + 1).drop_last() =~= views.subrange(0, i as int));
            assert(views.subrange(0, i as int)[best as int] == views[best as int]);
        }
        let m: u128 = misfit_of(zips[i].eocd().tot_entries, n);
        if m < least {
            best = i;
            least = m;
        }
        i += 1;
    }
    assert(views.subrange(0, i as int) =~= views);
    Some(best)
}

/// The offsets at which the headers of a cluster were found.
pub open spec fn ptrs_of(c: Seq<Found>) -> Seq<usize> {
    c.map_values(|f: Found| f.0)
}

/// The pages that hold the offsets `ptrs`, taken one after the other from a
/// pool that holds the pages `avail`: each page once, where it is to be
/// had; and the pages that the pool holds afterwards.
pub open spec fn pages_taken(ps: int, avail: Set<int>, ptrs: Seq<usize>) -> (Seq<Page>, Set<int>)
    decreases ptrs.len(),
{
    if ptrs.len() == 0 {
        (Seq::empty(), avail)
    } else {
        let (pages, left) = pages_taken(ps, avail, ptrs.drop_last());
        let k = ptrs.last() as int / ps;
        if left.contains(k) {
            (pages.push(page_at(k, ps)), left.remove(k))
        } else {
            (pages, left)
        }
    }
}

/// A skeleton after a cluster found at the offsets `ptrs` was given to it,
/// and the pages that the pool holds afterwards: the pages of the headers
/// leave the pool, and as many of them as the skeleton has room for stand
/// in it from the page on in which the central directory starts. Nothing
/// happens where that page cannot be counted on this machine.
pub open spec fn attributed(ps: int, zf: ZipView, avail: Set<int>, ptrs: Seq<usize>) -> (
    ZipView,
    Set<int>,
) {
    let start = zf.eocd.cd_offset + zf.init_offs;
    let (pages, left) = pages_taken(ps, avail, ptrs);
    let idx = start / ps;
    if start > usize::MAX {
        (zf, avail)
    } else if idx > zf.slots.len() {
        (zf, left)
    } else {
        let room = zf.slots.len() - idx;
        let placed = if pages.len() <= room {
            pages
        } else {
            pages.subrange(0, room)
        };
        (
            ZipView { eocd: zf.eocd, init_offs: zf.init_offs, slots: spliced(zf.slots, idx, placed) },
            left,
        )
    }
}

/// Takes the pages of the headers of `cluster` out of the pool, in the
/// order of the cluster.
pub fn take_pages(fs: &mut FragSys, cluster: &Cluster) -> (pages: Vec<Page>)
    requires
        old(fs).wf(),
    ensures
        final(fs).wf(),
        final(fs).image() == old(fs).image(),
        final(fs).spec_page_sz() == old(fs).spec_page_sz(),
        (pages@, final(fs).available()) == pages_taken(
            old(fs).spec_page_sz() as int,
            old(fs).available(),
            ptrs_of(cluster@),
        ),
{
    let mut pages: Vec<Page> = Vec::new();
    let mut i: usize = 0;
    let ghost ptrs = ptrs_of(cluster@);
    assert(ptrs.subrange(0, 0) =~= Seq::<usize>::empty());
    while i < cluster.len()
        invariant
            i <= cluster@.len(),
            ptrs == ptrs_of(cluster@),
            fs.wf(),
            fs.image() == old(fs).image(),
            fs.spec_page_sz() == old(fs).spec_page_sz(),
            (pages@, fs.available()) == pages_taken(
                old(fs).spec_page_sz() as int,
                old(fs).available(),
                ptrs.subrange(0, i as int),
            ),
        decreases cluster@.len() - i,
    {
        let ptr: usize = cluster.get(i).ptr();
        proof {
            assert(ptrs.subrange(0, i + 1).drop_last() =~= ptrs.subrange(0, i as int));
            assert(ptrs.subrange(0, i + 1).last() == ptr);
        }
        let ghost left = fs.available();
        match fs.get_pg_for_addr(ptr) {
            Some(page) => {
                pages.push(page);
            },
            None => {
                assert(fs.available() =~= left);
            },
        }
        i += 1;
    }
    assert(ptrs.subrange(0, i as int) =~= ptrs);
    pages
}

/// Gives `cluster` to the skeleton `zf`: the pages of its headers leave the
/// pool, and stand in the skeleton from the page on in which the central
/// directory starts, as far as the skeleton has room.
pub fn attribute_cluster(fs: &mut FragSys, zf: &mut ZipFile, cluster: &Cluster)
    requires
        old(fs).wf(),
    ensures
        final(fs).wf(),
        final(fs).image() == old(fs).image(),
        final(fs).spec_page_sz() == old(fs).spec_page_sz(),
        (final(zf)@, final(fs).available()) == attributed(
            old(fs).spec_page_sz() as int,
            old(zf)@,
            old(fs).available(),
            ptrs_of(cluster@),
        ),
{
    let ps: usize = fs.page_sz();
    if (zf.eocd().cd_offset as usize).checked_add(zf.init_offs()).is_none() {
        return ;
    }
    let cd_pg_idx: usize = zf.get_cd_start_pg_idx(ps);
    let mut cd_pgs = take_pages(fs, cluster);
    if cd_pg_idx <= zf.page_count() {
        let room: usize = zf.page_count() - cd_pg_idx;
        if cd_pgs.len() > room {
            cd_pgs.truncate(room);
        }
        zf.assign_pages(cd_pg_idx, cd_pgs);
    }
}

/// A skeleton after the local file header that `cd` announces was looked
/// for among the offsets `lfp` of `image`, and the pages that the pool
/// holds afterwards: where the header's bytes stand at one of the offsets
/// and the page of the first such offset is to be had, the page leaves the
/// pool and stands in the skeleton at the place of the header's offset in
/// the archive, if the skeleton has that place.
pub open spec fn lf_step(
    image: Seq<u8>,
    ps: int,
    lfp: Seq<int>,
    zf: ZipView,
    avail: Set<int>,
    cd: CdView,
) -> (ZipView, Set<int>) {
    let target = cd.lf_offset + zf.init_offs;
    match first_hit(image, cd.to_lf().bytes(), lfp) {
        None => (zf, avail),
        Some(ptr) => if target > usize::MAX || !avail.contains(ptr / ps) {
            (zf, avail)
        } else {
            (
                ZipView {
                    eocd: zf.eocd,
                    init_offs: zf.init_offs,
                    slots: if target / ps < zf.slots.len() {
                        zf.slots.update(target / ps, page_at(ptr / ps, ps))
                    } else {
                        zf.slots
                    },
                },
                avail.remove(ptr / ps),
            )
        },
    }
}

/// `lf_step` for each of the headers `cds`, one after the other.
pub open spec fn lf_placed(
    image: Seq<u8>,
    ps: int,
    lfp: Seq<int>,
    zf: ZipView,
    avail: Set<int>,
    cds: Seq<Found>,
) -> (ZipView, Set<int>)
    decreases cds.len(),
{
    if cds.len() == 0 {
        (zf, avail)
    } else {
        let (z, a) = lf_placed(image, ps, lfp, zf, avail, cds.drop_last());
        lf_step(image, ps, lfp, z, a, cds.last().1)
    }
}

/// A skeleton after the pages of its local file headers were looked for,
/// and the pages that the pool holds afterwards. The central directory
/// headers are read from the skeleton as it is rendered before any of them
/// is followed.
pub open spec fn with_lf_pages(image: Seq<u8>, ps: int, zf: ZipView, avail: Set<int>) -> (
    ZipView,
    Set<int>,
) {
    let shown = rendered(zf.slots, image);
    lf_placed(
        image,
        ps,
        find_all(image, lf_magic()),
        zf,
        avail,
        cds_at(shown, find_all(shown, cd_magic())),
    )
}

/// Reads the central directory headers of the skeleton as far as it is put
/// together, looks in the image for the local file header that each
/// announces, and moves the page of each one found from the pool into the
/// skeleton.
pub fn place_lf_pages(fs: &mut FragSys, zf: &mut ZipFile)
    requires
        old(fs).wf(),
    ensures
        final(fs).wf(),
        final(fs).image() == old(fs).image(),
        final(fs).spec_page_sz() == old(fs).spec_page_sz(),
        (final(zf)@, final(fs).available()) == with_lf_pages(
            old(fs).image(),
            old(fs).spec_page_sz() as int,
            old(zf)@,
            old(fs).available(),
        ),
{
    let ps: usize = fs.page_sz();
    let reparsed = zf.find_cds(fs.data().as_slice());
    let lfp = fs.find_lfs();
    let ghost cds = views_of(reparsed@);
    let ghost ptrs = find_all(fs.image(), lf_magic());
    let mut i: usize = 0;
    assert(cds.subrange(0, 0) =~= Seq::<Found>::empty());
    while i < reparsed.len()
        invariant
            i <= reparsed@.len(),
            cds == views_of(reparsed@),
            ptrs == crate::scan::offsets(lfp@),
            ps == fs.spec_page_sz(),
            fs.wf(),
            fs.image() == old(fs).image(),
            fs.spec_page_sz() == old(fs).spec_page_sz(),
            (zf@, fs.available()) == lf_placed(
                old(fs).image(),
                ps as int,
                ptrs,
                old(zf)@,
                old(fs).available(),
                cds.subrange(0, i as int),
            ),
        decreases reparsed.len() - i,
    {
        let cd = reparsed[i].header();
        proof {
            assert(cds.subrange(0, i + 1).drop_last() =~= cds.subrange(0, i as int));
            assert(cds.subrange(0, i + 1).last().1 == cd@);
        }
        let ghost left = fs.available();
        if (cd.lf_offset as usize).checked_add(zf.init_offs()).is_some() {
            let lfh = LF::from(cd);
            match fs.find_lf(&lfh, lfp.as_slice()) {
                Some(ptr) => {
                    match fs.get_pg_for_addr(ptr) {
                        Some(page) => {
                            let idx: usize = zf.get_pg_idx_for_offs(cd.lf_offset as usize, ps);
                            zf.assign_page(idx, page);
                        },
                        None => {
                            assert(fs.available() =~= left);
                        },
                    }
                },
                None => {},
            }
        }
        i += 1;
    }
    assert(cds.subrange(0, i as int) =~= cds);
}

/// The skeletons after each of the clusters, one after the other, was put
/// in ascending order of `lf_offset` and given to the skeleton that fits it
/// best; and the pages that the pool holds afterwards.
pub open spec fn clusters_attributed(
    ps: int,
    zips: Seq<ZipView>,
    avail: Set<int>,
    clusters: Seq<Seq<Found>>,
) -> (Seq<ZipView>, Set<int>)
    decreases clusters.len(),
{
    if clusters.len() == 0 {
        (zips, avail)
    } else {
        let (zs, a) = clusters_attributed(ps, zips, avail, clusters.drop_last());
        let c = sorted_by_lf(clusters.last());
        if zs.len() == 0 {
            (zs, a)
        } else {
            let b = best_of(zs, c.len() as int);
            let (z, left) = attributed(ps, zs[b], a, ptrs_of(c));
            (zs.update(b, z), left)
        }
    }
}

/// The first `upto` skeletons after the pages of their local file headers
/// were looked for, one skeleton after the other; the pages that the pool
/// holds afterwards; and the bytes of each of these skeletons, rendered as
/// soon as its pages were placed.
pub open spec fn archives_rendered(
    image: Seq<u8>,
    ps: int,
    zips: Seq<ZipView>,
    avail: Set<int>,
    upto: int,
) -> (Seq<ZipView>, Set<int>, Seq<Seq<u8>>)
    decreases upto,
{
    if upto <= 0 {
        (zips, avail, Seq::empty())
    } else {
        let (zs, a, out) = archives_rendered(image, ps, zips, avail, upto - 1);
        let (z, left) = with_lf_pages(image, ps, zs[upto - 1], a);
        (zs.update(upto - 1, z), left, out.push(rendered(z.slots, image)))
    }
}

/// Two states of a skeleton with the same record, the same start and as
/// many slots.
pub open spec fn same_frame(a: ZipView, b: ZipView) -> bool {
    a.eocd == b.eocd && a.init_offs == b.init_offs && a.slots.len() == b.slots.len()
}

/// Two lists of as many skeletons, each the same frame in both.
pub open spec fn same_frames(a: Seq<ZipView>, b: Seq<ZipView>) -> bool {
    a.len() == b.len() && forall|i: int| 0 <= i < a.len() ==> same_frame(#[trigger] a[i], b[i])
}

/// Giving a cluster to a skeleton changes only what stands in its slots.
pub proof fn lemma_attributed_frame(ps: int, zf: ZipView, avail: Set<int>, ptrs: Seq<usize>)
    requires
        ps > 0,
    ensures
        same_frame(zf, attributed(ps, zf, avail, ptrs).0),
{
    let start = zf.eocd.cd_offset + zf.init_offs;
    assert(start / ps >= 0) by (nonlinear_arith)
        requires
            start >= 0,
            ps > 0,
    ;
}

/// Following headers to their local file headers changes only what stands
/// in the slots of the skeleton.
pub proof fn lemma_lf_placed_frame(
    image: Seq<u8>,
    ps: int,
    lfp: Seq<int>,
    zf: ZipView,
    avail: Set<int>,
    cds: Seq<Found>,
)
    requires
        ps > 0,
    ensures
        same_frame(zf, lf_placed(image, ps, lfp, zf, avail, cds).0),
    decreases cds.len(),
{
    if cds.len() > 0 {
        lemma_lf_placed_frame(image, ps, lfp, zf, avail, cds.drop_last());
        let (z, a) = lf_placed(image, ps, lfp, zf, avail, cds.drop_last());
        let target = cds.last().1.lf_offset + z.init_offs;
        assert(target / ps >= 0) by (nonlinear_arith)
            requires
                target >= 0,
                ps > 0,
        ;
    }
}

/// Giving clusters to skeletons changes only what stands in slots.
pub proof fn lemma_clusters_attributed_frames(
    ps: int,
    zips: Seq<ZipView>,
    avail: Set<int>,
    clusters: Seq<Seq<Found>>,
)
    requires
        ps > 0,
    ensures
        same_frames(zips, clusters_attributed(ps, zips, avail, clusters).0),
    decreases clusters.len(),
{
    if clusters.len() > 0 {
        lemma_clusters_attributed_frames(ps, zips, avail, clusters.drop_last());
        let (zs, a) = clusters_attributed(ps, zips, avail, clusters.drop_last());
        let c = sorted_by_lf(clusters.last());
        if zs.len() > 0 {
            lemma_best_of(zs, c.len() as int);
            lemma_attributed_frame(ps, zs[best_of(zs, c.len() as int)], a, ptrs_of(c));
        }
    }
}

/// Rendering the first `upto` skeletons changes only what stands in their
/// slots, leaves the other skeletons as they are, and each rendering shows
/// its skeleton as it is in the end.
pub proof fn lemma_archives_rendered_frames(
    image: Seq<u8>,
    ps: int,
    zips: Seq<ZipView>,
    avail: Set<int>,
    upto: int,
)
    requires
        ps > 0,
        upto <= zips.len(),
    ensures
        ({
            let (zs, left, out) = archives_rendered(image, ps, zips, avail, upto);
            &&& same_frames(zips, zs)
            &&& out.len() == if upto > 0 {
                upto
            } else {
                0
            }
            &&& forall|i: int| 0 <= i < upto ==> #[trigger] out[i] == rendered(zs[i].slots, image)
            &&& forall|i: int| upto <= i < zips.len() && 0 <= i ==> #[trigger] zs[i] == zips[i]
        }),
    decreases upto,
{
    if upto > 0 {
        lemma_archives_rendered_frames(image, ps, zips, avail, upto - 1);
        let (zs, a, out) = archives_rendered(image, ps, zips, avail, upto - 1);
        let shown = rendered(zs[upto - 1].slots, image);
        lemma_lf_placed_frame(
            image,
            ps,
            find_all(image, lf_magic()),
            zs[upto - 1],
            a,
            cds_at(shown, find_all(shown, cd_magic())),
        );
    }
}

/// What a list of byte vectors holds.
pub open spec fn byte_views(out: Seq<Vec<u8>>) -> Seq<Seq<u8>> {
    out.map_values(|v: Vec<u8>| v@)
}

/// Gives each cluster to a skeleton and moves the pages of its headers
/// there: each cluster in turn is put in ascending order of `lf_offset` and
/// goes to the skeleton that fits it best.
pub fn attribute_clusters(fs: &mut FragSys, zips: &mut Vec<ZipFile>, clusters: Vec<Cluster>)
    requires
        old(fs).wf(),
    ensures
        final(fs).wf(),
        final(fs).image() == old(fs).image(),
        final(fs).spec_page_sz() == old(fs).spec_page_sz(),
        final(zips)@.len() == old(zips)@.len(),
        (zip_views(final(zips)@), final(fs).available()) == clusters_attributed(
            old(fs).spec_page_sz() as int,
            zip_views(old(zips)@),
            old(fs).available(),
            cluster_views(clusters@),
        ),
        same_frames(zip_views(old(zips)@), zip_views(final(zips)@)),
        owned_apart(*old(fs), old(zips)@) ==> owned_apart(*final(fs), final(zips)@),
{
    proof {
        lemma_clusters_attributed_frames(
            fs.spec_page_sz() as int,
            zip_views(zips@),
            fs.available(),
            cluster_views(clusters@),
        );
        if owned_apart(*fs, zips@) {
            lemma_clusters_attributed_apart(
                fs.image().len() as int,
                fs.spec_page_sz() as int,
                zip_views(zips@),
                fs.available(),
                cluster_views(clusters@),
            );
        }
    }
    let mut clusters = clusters;
    let ghost all = cluster_views(clusters@);
    let ghost ps = fs.spec_page_sz() as int;
    let mut i: usize = 0;
    assert(all.subrange(0, 0) =~= Seq::<Seq<Found>>::empty());
    while i < clusters.len()
        invariant
            i <= clusters@.len(),
            clusters@.len() == all.len(),
            forall|j: int| i <= j < all.len() ==> (#[trigger] clusters@[j])@ == all[j],
            ps == old(fs).spec_page_sz(),
            fs.wf(),
            fs.image() == old(fs).image(),
            fs.spec_page_sz() == old(fs).spec_page_sz(),
            zips@.len() == old(zips)@.len(),
            (zip_views(zips@), fs.available()) == clusters_attributed(
                ps,
                zip_views(old(zips)@),
                old(fs).available(),
                all.subrange(0, i as int),
            ),
        decreases clusters@.len() - i,
    {
        proof {
            assert(all.subrange(0, i + 1).drop_last() =~= all.subrange(0, i as int));
            assert(all.subrange(0, i + 1).last() == all[i as int]);
        }
        let ghost before = zip_views(zips@);
        clusters[i].sort_by_lf_offset();
        let n: usize = clusters[i].len();
        proof {
            crate::analysis::lemma_sorted_by_lf(all[i as int]);
        }
        match best_match(zips, n) {
            Some(b) => {
                attribute_cluster(fs, &mut zips[b], &clusters[i]);
                assert(zip_views(zips@) =~= before.update(b as int, zips@[b as int]@));
            },
            None => {},
        }
        i += 1;
    }
    assert(all.subrange(0, i as int) =~= all);
}

/// Finishes the skeletons and renders them: for each skeleton in turn the
/// pages of the local file headers that its central directory announces
/// are moved from the pool into it, and it is rendered.
pub fn render_archives(fs: &mut FragSys, zips: &mut Vec<ZipFile>) -> (out: Vec<Vec<u8>>)
    requires
        old(fs).wf(),
    ensures
        final(fs).wf(),
        final(fs).image() == old(fs).image(),
        final(fs).spec_page_sz() == old(fs).spec_page_sz(),
        out@.len() == old(zips)@.len(),
        final(zips)@.len() == old(zips)@.len(),
        (zip_views(final(zips)@), final(fs).available(), byte_views(out@)) == archives_rendered(
            old(fs).image(),
            old(fs).spec_page_sz() as int,
            zip_views(old(zips)@),
            old(fs).available(),
            old(zips)@.len() as int,
        ),
        same_frames(zip_views(old(zips)@), zip_views(final(zips)@)),
        forall|i: int|
            0 <= i < out@.len() ==> (#[trigger] out@[i])@ == rendered(
                final(zips)@[i]@.slots,
                old(fs).image(),
            ),
        owned_apart(*old(fs), old(zips)@) ==> owned_apart(*final(fs), final(zips)@),
{
    proof {
        lemma_archives_rendered_frames(
            fs.image(),
            fs.spec_page_sz() as int,
            zip_views(zips@),
            fs.available(),
            zips@.len() as int,
        );
        if owned_apart(*fs, zips@) {
            lemma_archives_rendered_apart(
                fs.image(),
                fs.spec_page_sz() as int,
                zip_views(zips@),
                fs.available(),
                zips@.len() as int,
            );
        }
    }
    let mut out: Vec<Vec<u8>> = Vec::new();
    let ps: usize = fs.page_sz();
    let mut i: usize = 0;
    assert(byte_views(out@) =~= Seq::<Seq<u8>>::empty());
    while i < zips.len()
        invariant
            i <= zips@.len(),
            ps == old(fs).spec_page_sz(),
            fs.wf(),
            fs.image() == old(fs).image(),
            fs.spec_page_sz() == old(fs).spec_page_sz(),
            zips@.len() == old(zips)@.len(),
            out@.len() == i,
            (zip_views(zips@), fs.available(), byte_views(out@)) == archives_rendered(
                old(fs).image(),
                ps as int,
                zip_views(old(zips)@),
                old(fs).available(),
                i as int,
            ),
        decreases zips.len() - i,
    {
        let ghost before = zip_views(zips@);
        let ghost shown = byte_views(out@);
        place_lf_pages(fs, &mut zips[i]);
        assert(zip_views(zips@) =~= before.update(i as int, zips@[i as int]@));
        let bytes = zips[i].render_pages(fs.data().as_slice(), ps);
        out.push(bytes);
        assert(byte_views(out@) =~= shown.push(bytes@));
        i += 1;
    }
    proof {
        assert forall|i: int| 0 <= i < out@.len() implies (#[trigger] out@[i])@ == rendered(
            zips@[i]@.slots,
            old(fs).image(),
        ) by {
            assert(byte_views(out@)[i] == out@[i]@);
            assert(zip_views(zips@)[i] == zips@[i]@);
        }
    }
    out
}

/// Puts the archives back together, as far as the image allows: the
/// clusters are given to the skeletons, the pages of the local file headers
/// are looked for, and each skeleton is rendered. The result holds the
/// bytes of one archive for each skeleton, in the order of the skeletons; a
/// page that was not found is `HOLE_SZ` zero bytes in it.
pub fn rebuild(fs: &mut FragSys, zips: &mut Vec<ZipFile>, clusters: Vec<Cluster>) -> (out: Vec<
    Vec<u8>,
>)
    requires
        old(fs).wf(),
    ensures
        final(fs).wf(),
        final(fs).image() == old(fs).image(),
        final(fs).spec_page_sz() == old(fs).spec_page_sz(),
        out@.len() == old(zips)@.len(),
        ({
            let ps = old(fs).spec_page_sz() as int;
            let (zs, a) = clusters_attributed(
                ps,
                zip_views(old(zips)@),
                old(fs).available(),
                cluster_views(clusters@),
            );
            (zip_views(final(zips)@), final(fs).available(), byte_views(out@)) == archives_rendered(
                old(fs).image(),
                ps,
                zs,
                a,
                old(zips)@.len() as int,
            )
        }),
        same_frames(zip_views(old(zips)@), zip_views(final(zips)@)),
        forall|i: int|
            0 <= i < out@.len() ==> (#[trigger] out@[i])@ == rendered(
                final(zips)@[i]@.slots,
                old(fs).image(),
            ),
        owned_apart(*old(fs), old(zips)@) ==> owned_apart(*final(fs), final(zips)@),
{
    attribute_clusters(fs, zips, clusters);
    let ghost between = zip_views(zips@);
    let out = render_archives(fs, zips);
    proof {
        let before = zip_views(old(zips)@);
        let after = zip_views(zips@);
        assert forall|i: int| 0 <= i < before.len() implies same_frame(
            #[trigger] before[i],
            after[i],
        ) by {
            assert(same_frame(before[i], between[i]));
            assert(same_frame(between[i], after[i]));
        }
    }
    out
}

/// The outcome of a whole run on an image whose skeletons and central
/// directory headers were found: the headers are clustered, one cluster for
/// each skeleton, and the archives are rebuilt from the clusters. `outcome`
/// is what k-means reports of the headers, where it was asked.
///
/// Where clustering fails, the run ends there: the error is handed on, no
/// page is moved and no archive is rendered.
pub fn recover(
    fs: &mut FragSys,
    zips: &mut Vec<ZipFile>,
    cds: &[CDInstance],
    outcome: Option<Vec<Vec<usize>>>,
) -> (r: Result<Vec<Vec<u8>>, ClusteringError>)
    requires
        old(fs).wf(),
    ensures
        final(fs).wf(),
        final(fs).image() == old(fs).image(),
        final(fs).spec_page_sz() == old(fs).spec_page_sz(),
        match clusters_of(views_of(cds@), old(zips)@.len() as int, groups_of(outcome)) {
            None => r.is_err() && final(fs).pool() == old(fs).pool() && final(zips)@ == old(
                zips,
            )@,
            Some(cs) => r matches Ok(out) && out@.len() == old(zips)@.len() && ({
                let ps = old(fs).spec_page_sz() as int;
                let (zs, a) = clusters_attributed(
                    ps,
                    zip_views(old(zips)@),
                    old(fs).available(),
                    cs,
                );
                (zip_views(final(zips)@), final(fs).available(), byte_views(out@))
                    == archives_rendered(old(fs).image(), ps, zs, a, old(zips)@.len() as int)
            }),
        },
        measurable(cds@.len() as int, old(zips)@.len() as int) && outcome.is_none() ==> (
        r matches Err(ClusteringError::Plain)),
        r matches Ok(out) ==> forall|i: int|
            0 <= i < out@.len() ==> (#[trigger] out@[i])@ == rendered(
                final(zips)@[i]@.slots,
                old(fs).image(),
            ),
        same_frames(zip_views(old(zips)@), zip_views(final(zips)@)),
        owned_apart(*old(fs), old(zips)@) ==> owned_apart(*final(fs), final(zips)@),
{
    match cluster(cds, zips.len(), outcome) {
        Ok(clusters) => Ok(rebuild(fs, zips, clusters)),
        Err(e) => Err(e),
    }
}

} // verus!
