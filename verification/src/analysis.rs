//! Clusters of central directory headers: the headers that one archive is
//! thought to own.

use crate::chunks::{views_of, CDInstance, CdView};
use vstd::prelude::*;

verus! {

/// Something that has a place among the points by which headers are
/// clustered.
pub trait Vectorizable {
    /// The place: five whole coordinates. Who measures distances between
    /// places widens them.
    fn to_euclidean(&self) -> [u32; 5];
}

/// A header together with the offset at which it was found.
pub trait Instance {
    /// The kind of header.
    type Item: Vectorizable;

    /// The offset at which the header was found.
    fn ptr(&self) -> usize;

    /// The header.
    fn header(&self) -> &Self::Item;
}

/// Clustering failed.
#[derive(Debug)]
pub enum ClusteringError {
    /// It did not settle within its bound of rounds.
    Plain,
    /// It failed for the reason given.
    Descriptive(String),
}

/// A header with the offset at which it was found, as clusters hold them.
pub type Found = (usize, CdView);

/// `s` with `x` put in behind the last header whose `lf_offset` is not
/// larger, taken that `s` ascends.
pub open spec fn inserted_by_lf(s: Seq<Found>, x: Found) -> Seq<Found>
    decreases s.len(),
{
    if s.len() == 0 {
        seq![x]
    } else if s.last().1.lf_offset <= x.1.lf_offset {
        s.push(x)
    } else {
        inserted_by_lf(s.drop_last(), x).push(s.last())
    }
}

/// `s` in ascending order of `lf_offset`; headers with equal `lf_offset`
/// keep their order.
pub open spec fn sorted_by_lf(s: Seq<Found>) -> Seq<Found>
    decreases s.len(),
{
    if s.len() == 0 {
        Seq::empty()
    } else {
        inserted_by_lf(sorted_by_lf(s.drop_last()), s.last())
    }
}

/// `s` ascends by `lf_offset`.
pub open spec fn ascends_by_lf(s: Seq<Found>) -> bool {
    forall|i: int, j: int| 0 <= i <= j < s.len() ==> s[i].1.lf_offset <= s[j].1.lf_offset
}

/// Where `s` ascends up to place `at` and is larger than `x` from there on,
/// `at` is where `x` is put in.
proof fn lemma_inserted_at(s: Seq<Found>, x: Found, at: int)
    requires
        0 <= at <= s.len(),
        at > 0 ==> s[at - 1].1.lf_offset <= x.1.lf_offset,
        forall|j: int| at <= j < s.len() ==> s[j].1.lf_offset > x.1.lf_offset,
    ensures
        inserted_by_lf(s, x) == s.insert(at, x),
    decreases s.len() - at,
{
    if s.len() == 0 {
        assert(s.insert(at, x) =~= seq![x]);
    } else if at == s.len() {
        assert(s.insert(at, x) =~= s.push(x));
    } else {
        lemma_inserted_at(s.drop_last(), x, at);
        assert(s.drop_last().insert(at, x).push(s.last()) =~= s.insert(at, x));
    }
}

/// Putting a header into an ascending list keeps it ascending, and keeps
/// every header.
pub proof fn lemma_inserted_ascends(s: Seq<Found>, x: Found)
    requires
        ascends_by_lf(s),
    ensures
        ascends_by_lf(inserted_by_lf(s, x)),
        inserted_by_lf(s, x).to_multiset() == s.to_multiset().insert(x),
        inserted_by_lf(s, x).len() == s.len() + 1,
    decreases s.len(),
{
    broadcast use vstd::seq_lib::group_to_multiset_ensures;

    let r = inserted_by_lf(s, x);
    if s.len() == 0 {
        assert(r =~= Seq::<Found>::empty().push(x));
    } else if s.last().1.lf_offset <= x.1.lf_offset {
    } else {
        let head = s.drop_last();
        let inner = inserted_by_lf(head, x);
        assert(ascends_by_lf(head));
        lemma_inserted_ascends(head, x);
        assert(s =~= head.push(s.last()));
        assert(r.to_multiset() =~= s.to_multiset().insert(x));
        assert forall|i: int, j: int| 0 <= i <= j < r.len() implies r[i].1.lf_offset
            <= r[j].1.lf_offset by {
            if j == r.len() - 1 {
                if i < j {
                    assert(inner.to_multiset().count(inner[i]) > 0);
                    if inner[i] != x {
                        assert(head.to_multiset().count(inner[i]) > 0);
                        assert(head.contains(inner[i]));
                        let k = choose|k: int| 0 <= k < head.len() && head[k] == inner[i];
                        assert(s[k].1.lf_offset <= s[s.len() - 1].1.lf_offset);
                    }
                }
            } else {
                assert(r[i] == inner[i] && r[j] == inner[j]);
            }
        }
    }
}

/// A sorted list ascends and holds the headers of the list it was made
/// from, each as often.
pub proof fn lemma_sorted_by_lf(s: Seq<Found>)
    ensures
        ascends_by_lf(sorted_by_lf(s)),
        sorted_by_lf(s).to_multiset() == s.to_multiset(),
        sorted_by_lf(s).len() == s.len(),
    decreases s.len(),
{
    broadcast use vstd::seq_lib::group_to_multiset_ensures;

    if s.len() == 0 {
    } else {
        lemma_sorted_by_lf(s.drop_last());
        lemma_inserted_ascends(sorted_by_lf(s.drop_last()), s.last());
        assert(s =~= s.drop_last().push(s.last()));
    }
}

/// The headers that one archive is thought to own.
#[derive(Debug)]
pub struct Cluster(Vec<CDInstance>);

impl View for Cluster {
    type V = Seq<Found>;

    closed spec fn view(&self) -> Seq<Found> {
        views_of(self.0@)
    }
}

impl Clone for Cluster {
    fn clone(&self) -> (res: Self)
        ensures
            res@ == self@,
    {
        Cluster::new(self.0.as_slice())
    }
}

impl Cluster {
    /// A cluster of the headers `instances`, in their order.
    pub fn new(instances: &[CDInstance]) -> (c: Cluster)
        ensures
            c@ == views_of(instances@),
    {
        let mut held: Vec<CDInstance> = Vec::new();
        let mut i: usize = 0;
        while i < instances.len()
            invariant
                i <= instances@.len(),
                views_of(held@) == views_of(instances@).subrange(0, i as int),
            decreases instances.len() - i,
        {
            let ghost before = views_of(held@);
            held.push(instances[i].clone());
            assert(views_of(held@) =~= before.push(instances@[i as int]@));
            assert(views_of(held@) =~= views_of(instances@).subrange(0, i + 1));
            i += 1;
        }
        assert(views_of(instances@).subrange(0, i as int) =~= views_of(instances@));
        Cluster(held)
    }

    /// The number of headers in the cluster.
    pub fn len(&self) -> (n: usize)
        ensures
            n == self@.len(),
    {
        self.0.len()
    }

    /// The header at place `i`.
    pub fn get(&self, i: usize) -> (c: &CDInstance)
        requires
            i < self@.len(),
        ensures
            c@ == self@[i as int],
    {
        &self.0[i]
    }

    /// Puts the headers into ascending order of `lf_offset`. Headers with
    /// equal `lf_offset` keep their order.
    pub fn sort_by_lf_offset(&mut self)
        ensures
            final(self)@ == sorted_by_lf(old(self)@),
            ascends_by_lf(final(self)@),
            final(self)@.to_multiset() == old(self)@.to_multiset(),
    {
        let mut out: Vec<CDInstance> = Vec::new();
        let mut i: usize = 0;
        assert(self@.subrange(0, 0) =~= Seq::<Found>::empty());
        while i < self.0.len()
            invariant
                *self == *old(self),
                i <= self.0@.len(),
                views_of(out@) == sorted_by_lf(self@.subrange(0, i as int)),
            decreases self.0.len() - i,
        {
            let x = self.0[i].clone();
            let ghost sorted = views_of(out@);
            proof {
                lemma_sorted_by_lf(self@.subrange(0, i as int));
                assert(self@.subrange(0, i + 1).drop_last() =~= self@.subrange(0, i as int));
                assert(self@.subrange(0, i + 1).last() == x@);
            }
            let mut at: usize = out.len();
            while at > 0 && out[at - 1].1.lf_offset > x.1.lf_offset
                invariant
                    at <= out@.len(),
                    sorted == views_of(out@),
                    forall|j: int| at <= j < sorted.len() ==> sorted[j].1.lf_offset > x@.1.lf_offset,
                decreases at,
            {
                at -= 1;
            }
            proof {
                lemma_inserted_at(sorted, x@, at as int);
            }
            out.insert(at, x);
            assert(views_of(out@) =~= sorted.insert(at as int, x@));
            i += 1;
        }
        proof {
            assert(self@.subrange(0, i as int) =~= self@);
            lemma_sorted_by_lf(self@);
        }
        self.0 = out;
    }
}

/// A walk over the headers of a cluster, from the first to the last.
#[derive(Debug)]
pub struct IterCluster<'a> {
    /// The cluster that is walked over.
    inner: &'a Cluster,
    /// The place of the header that comes next.
    pos: usize,
}

impl<'a> IterCluster<'a> {
    /// The headers that are still to come, in order.
    pub closed spec fn rest(&self) -> Seq<Found> {
        if self.pos <= self.inner@.len() {
            self.inner@.subrange(self.pos as int, self.inner@.len() as int)
        } else {
            Seq::empty()
        }
    }

    /// The next header, if one is still to come.
    pub fn next(&mut self) -> (item: Option<&'a CDInstance>)
        ensures
            match item {
                Some(c) => old(self).rest().len() > 0 && c@ == old(self).rest()[0]
                    && final(self).rest() == old(self).rest().drop_first(),
                None => old(self).rest().len() == 0 && final(self).rest() == old(self).rest(),
            },
    {
        if self.pos >= self.inner.0.len() {
            None
        } else {
            self.pos += 1;
            proof {
                assert(self.rest() =~= old(self).rest().drop_first());
            }
            Some(&self.inner.0[self.pos - 1])
        }
    }
}

impl Cluster {
    /// A walk over the headers of the cluster, which starts at the first.
    pub fn iter(&self) -> (walk: IterCluster<'_>)
        ensures
            walk.rest() == self@,
    {
        let walk = IterCluster { inner: self, pos: 0 };
        assert(walk.rest() =~= self@);
        walk
    }
}

/// The headers of `cds` at the places `group`, in the order of `group`.
pub open spec fn picked(cds: Seq<Found>, group: Seq<usize>) -> Seq<Found> {
    Seq::new(group.len(), |i: int| cds[group[i] as int])
}

/// Every place named in `groups` is a place of a list of `n` headers.
pub open spec fn groups_within(groups: Seq<Vec<usize>>, n: int) -> bool {
    forall|g: int, i: int|
        0 <= g < groups.len() && 0 <= i < groups[g]@.len() ==> #[trigger] groups[g]@[i] < n
}

/// What a list of clusters holds.
pub open spec fn cluster_views(clusters: Seq<Cluster>) -> Seq<Seq<Found>> {
    clusters.map_values(|c: Cluster| c@)
}

/// The groups into which `n` points fall without any measuring: none where
/// no group is asked for, all points in one where one is asked for. Two
/// groups or more need measuring, and there is no answer.
pub fn trivial_groups(n: usize, k: usize) -> (groups: Option<Vec<Vec<usize>>>)
    ensures
        k == 0 ==> (groups matches Some(g) && g@.len() == 0),
        k == 1 ==> (groups matches Some(g) && g@.len() == 1 && g@[0]@ == Seq::new(
            n as nat,
            |i: int| i as usize,
        )),
        k >= 2 ==> groups.is_none(),
{
    if k == 0 {
        Some(Vec::new())
    } else if k == 1 {
        let mut all: Vec<usize> = Vec::new();
        let mut i: usize = 0;
        while i < n
            invariant
                i <= n,
                all@ == Seq::new(i as nat, |j: int| j as usize),
            decreases n - i,
        {
            all.push(i);
            assert(all@ =~= Seq::new((i + 1) as nat, |j: int| j as usize));
            i += 1;
        }
        let mut groups: Vec<Vec<usize>> = Vec::new();
        groups.push(all);
        Some(groups)
    } else {
        None
    }
}

/// Makes clusters of the headers `data` from groups of places in `data`,
/// one cluster for each group, in the order of the groups.
///
/// Fails with `Descriptive` where a group names a place that `data` does
/// not have.
pub fn cluster_by_groups(data: &[CDInstance], groups: &Vec<Vec<usize>>) -> (r: Result<
    Vec<Cluster>,
    ClusteringError,
>)
    ensures
        groups_within(groups@, data@.len() as int) ==> (r matches Ok(cs) && cs@.len()
            == groups@.len() && forall|g: int|
            0 <= g < groups@.len() ==> (#[trigger] cs@[g])@ == picked(
                views_of(data@),
                groups@[g]@,
            )),
        !groups_within(groups@, data@.len() as int) ==> (r matches Err(
            ClusteringError::Descriptive(_),
        )),
{
    let mut clusters: Vec<Cluster> = Vec::new();
    let mut g: usize = 0;
    while g < groups.len()
        invariant
            g <= groups@.len(),
            clusters@.len() == g,
            groups_within(groups@.subrange(0, g as int), data@.len() as int),
            forall|h: int|
                0 <= h < g ==> (#[trigger] clusters@[h])@ == picked(views_of(data@), groups@[h]@),
        decreases groups.len() - g,
    {
        let group: &Vec<usize> = &groups[g];
        let mut held: Vec<CDInstance> = Vec::new();
        let mut i: usize = 0;
        while i < group.len()
            invariant
                i <= group@.len(),
                group@ == groups@[g as int]@,
                g < groups@.len(),
                forall|j: int| 0 <= j < i ==> #[trigger] group@[j] < data@.len(),
                views_of(held@) == picked(views_of(data@), group@.subrange(0, i as int)),
            decreases group.len() - i,
        {
            let at: usize = group[i];
            if at >= data.len() {
                assert(!groups_within(groups@, data@.len() as int));
                return Err(ClusteringError::Descriptive("no header at a clustered place".to_string()));
            }
            let ghost before = views_of(held@);
            held.push(data[at].clone());
            assert(views_of(held@) =~= before.push(data@[at as int]@));
            assert(views_of(held@) =~= picked(views_of(data@), group@.subrange(0, i + 1)));
            i += 1;
        }
        assert(group@.subrange(0, i as int) =~= group@);
        let ghost old_clusters = clusters@;
        clusters.push(Cluster(held));
        proof {
            assert forall|h: int, j: int|
                0 <= h < groups@.subrange(0, g + 1).len() && 0 <= j < groups@.subrange(
                    0,
                    g + 1,
                )[h]@.len() implies #[trigger] groups@.subrange(0, g + 1)[h]@[j]
                < data@.len() by {
                if h < g {
                    assert(groups@.subrange(0, g as int)[h]@[j] < data@.len());
                }
            }
        }
        g += 1;
    }
    assert(groups@.subrange(0, g as int) =~= groups@);
    Ok(clusters)
}

/// Whether it takes measuring to put `n` headers into `k` clusters: with two
/// clusters or more, and more headers than clusters.
pub open spec fn measurable(n: int, k: int) -> bool {
    2 <= k < n
}

/// Whether it takes measuring to put `n` headers into `k` clusters. Where it
/// does not, `cluster` needs no outcome of k-means.
pub fn needs_measuring(n: usize, k: usize) -> (b: bool)
    ensures
        b == measurable(n as int, k as int),
{
    2 <= k && k < n
}

/// The groups that an outcome of k-means holds.
pub open spec fn groups_of(outcome: Option<Vec<Vec<usize>>>) -> Option<Seq<Vec<usize>>> {
    match outcome {
        Some(groups) => Some(groups@),
        None => None,
    }
}

/// The clusters into which the headers `cds` fall for `k` archives, given
/// what k-means reports, if it was asked; or nothing where there are none:
/// no cluster for no archive, one cluster of all headers for one archive,
/// none where there are no more headers than clusters to tell apart, none
/// where k-means did not settle or names a header that is not there, and
/// else the headers of each group that k-means reports.
pub open spec fn clusters_of(cds: Seq<Found>, k: int, outcome: Option<Seq<Vec<usize>>>) -> Option<
    Seq<Seq<Found>>,
> {
    if k == 0 {
        Some(Seq::empty())
    } else if k == 1 {
        Some(seq![cds])
    } else if !measurable(cds.len() as int, k) {
        None
    } else {
        match outcome {
            None => None,
            Some(groups) => if groups_within(groups, cds.len() as int) {
                Some(Seq::new(groups.len(), |g: int| picked(cds, groups[g]@)))
            } else {
                None
            },
        }
    }
}

/// Clusters the headers `data` into `k` clusters. Where that takes
/// measuring, `outcome` is what k-means reports of the headers' points: the
/// groups of places on which it settled, or nothing where it did not settle
/// within its bound of rounds. Where it takes none, `outcome` is not looked
/// at.
///
/// Fails with `Plain` where k-means did not settle, and with `Descriptive`
/// where there are two clusters or more and no more headers than clusters,
/// or a group names a place that `data` does not have.
pub fn cluster(data: &[CDInstance], k: usize, outcome: Option<Vec<Vec<usize>>>) -> (r: Result<
    Vec<Cluster>,
    ClusteringError,
>)
    ensures
        match clusters_of(views_of(data@), k as int, groups_of(outcome)) {
            Some(cs) => r matches Ok(v) && cluster_views(v@) == cs,
            None => r.is_err(),
        },
        k >= 2 && !measurable(data@.len() as int, k as int) ==> (r matches Err(
            ClusteringError::Descriptive(_),
        )),
        measurable(data@.len() as int, k as int) && outcome.is_none() ==> (r matches Err(
            ClusteringError::Plain,
        )),
        measurable(data@.len() as int, k as int) && outcome.is_some() && r.is_err() ==> (
        r matches Err(ClusteringError::Descriptive(_))),
{
    let groups: Vec<Vec<usize>> = match trivial_groups(data.len(), k) {
        Some(groups) => groups,
        None => {
            if !needs_measuring(data.len(), k) {
                return Err(
                    ClusteringError::Descriptive("no more headers than clusters".to_string()),
                );
            }
            match outcome {
                Some(groups) => groups,
                None => {
                    return Err(ClusteringError::Plain);
                },
            }
        },
    };
    let r = cluster_by_groups(data, &groups);
    proof {
        let cds = views_of(data@);
        if k == 1 {
            assert(groups_within(groups@, data@.len() as int));
            assert(picked(cds, groups@[0]@) =~= cds);
        }
        if groups_within(groups@, data@.len() as int) {
            let v = r->Ok_0;
            let cs = clusters_of(cds, k as int, groups_of(outcome))->Some_0;
            assert(cluster_views(v@) =~= cs);
        }
    }
    r
}

} // verus!
