use zipdefrag::analysis::{
    cluster, cluster_by_groups, needs_measuring, trivial_groups, Cluster, ClusteringError,
    Instance, Vectorizable,
};
use zipdefrag::chunks::{CDInstance, CD};
use zipdefrag::pool::FragSys;
use zipdefrag::recovery::{
    attribute_cluster, attribute_clusters, best_match, place_lf_pages, rebuild, recover,
    render_archives, take_pages, DEFAULT_PAGE_SZ,
};
use zipdefrag::skeleton::{ZipFile, HOLE_SZ};

const PS: usize = 64;

/// What an archive is built from: who made it, when, and for each file its
/// name and the length of its data.
struct Recipe {
    made_by: u16,
    when: [u8; 4],
    files: Vec<(&'static [u8; 5], usize)>,
}

/// A local file header with an extra field of 13 bytes, and the data.
fn local_file(r: &Recipe, i: usize) -> Vec<u8> {
    let (name, len) = r.files[i];
    let mut out = b"PK\x03\x04\x14\x00\x00\x00\x08\x00".to_vec();
    out.extend_from_slice(&r.when);
    out.extend_from_slice(&(0x1000 + i as u32).to_le_bytes());
    out.extend_from_slice(&(len as u32).to_le_bytes());
    out.extend_from_slice(&(2 * len as u32).to_le_bytes());
    out.extend_from_slice(&[5, 0, 13, 0]);
    out.extend_from_slice(name);
    out.extend_from_slice(&[0xee; 13]);
    out.extend_from_slice(&vec![0x10 + i as u8; len]);
    out
}

/// A central directory header of 64 bytes.
fn central(r: &Recipe, i: usize, lf_offset: usize) -> Vec<u8> {
    let (name, len) = r.files[i];
    let mut out = b"PK\x01\x02".to_vec();
    out.extend_from_slice(&r.made_by.to_le_bytes());
    out.extend_from_slice(b"\x14\x00\x00\x00\x08\x00");
    out.extend_from_slice(&r.when);
    out.extend_from_slice(&(0x1000 + i as u32).to_le_bytes());
    out.extend_from_slice(&(len as u32).to_le_bytes());
    out.extend_from_slice(&(2 * len as u32).to_le_bytes());
    out.extend_from_slice(&[5, 0, 13, 0, 0, 0, 0, 0, 0, 0, 0, 0, 0, 0]);
    out.extend_from_slice(&(lf_offset as u32).to_le_bytes());
    out.extend_from_slice(name);
    out.extend_from_slice(&[0xee; 13]);
    out
}

/// The archive, filled up to whole pages.
fn archive(r: &Recipe) -> Vec<u8> {
    let mut out = Vec::new();
    let mut offsets = Vec::new();
    for i in 0..r.files.len() {
        offsets.push(out.len());
        out.extend_from_slice(&local_file(r, i));
    }
    let cd_offset = out.len();
    for i in 0..r.files.len() {
        out.extend_from_slice(&central(r, i, offsets[i]));
    }
    let cd_sz = out.len() - cd_offset;
    out.extend_from_slice(b"PK\x05\x06\x00\x00\x00\x00");
    out.extend_from_slice(&(r.files.len() as u16).to_le_bytes());
    out.extend_from_slice(&(r.files.len() as u16).to_le_bytes());
    out.extend_from_slice(&(cd_sz as u32).to_le_bytes());
    out.extend_from_slice(&(cd_offset as u32).to_le_bytes());
    out.extend_from_slice(&[0, 0]);
    while out.len() % PS != 0 {
        out.push(0xaa);
    }
    out
}

/// Two files: five pages, the central directory from offset 8 of the third.
fn small() -> Recipe {
    Recipe { made_by: 0x0314, when: *b"\x69\x8c\x9d\x48", files: vec![(b"a.txt", 16), (b"b.txt", 24)] }
}

/// Three files: seven pages, the central directory from offset 8 of the
/// fourth.
fn large() -> Recipe {
    Recipe {
        made_by: 0x0014,
        when: *b"N\x83EI",
        files: vec![(b"c.bin", 16), (b"d.bin", 16), (b"e.bin", 24)],
    }
}

fn page(archive: &[u8], i: usize) -> &[u8] {
    &archive[i * PS..(i + 1) * PS]
}

fn with_hole_behind(archive: &[u8]) -> Vec<u8> {
    let mut out = archive.to_vec();
    out.extend_from_slice(&[0u8; HOLE_SZ]);
    out
}

fn one_cluster(fs: &mut FragSys, zips: &Vec<ZipFile>) -> Vec<Cluster> {
    let cds = fs.find_cds();
    let groups = trivial_groups(cds.len(), zips.len()).unwrap();
    cluster_by_groups(&cds, &groups).unwrap()
}

fn header(lf_offset: u32, at: usize) -> CDInstance {
    let mut raw = central(&small(), 0, lf_offset as usize);
    raw[4] = at as u8;
    CDInstance(at, CD::from_data(&raw, 0).unwrap())
}

#[test]
fn builder_makes_the_pages_it_promises() {
    let x = archive(&small());
    let y = archive(&large());
    assert_eq!(x.len(), 5 * PS);
    assert_eq!(y.len(), 7 * PS);
    assert_eq!(&x[136..140], b"PK\x01\x02");
    assert_eq!(&x[264..268], b"PK\x05\x06");
    assert_eq!(&y[200..204], b"PK\x01\x02");
    assert_eq!(&y[392..396], b"PK\x05\x06");
    assert_eq!(DEFAULT_PAGE_SZ, 1024);
}

#[test]
fn single_archive_in_order() {
    let x = archive(&small());
    let mut fs = FragSys::from_bytes(x.clone(), PS);
    let mut zips = fs.find_zips();
    assert_eq!(zips.len(), 1);
    assert_eq!(zips[0].eocd().tot_entries, 2);
    assert_eq!(zips[0].init_offs(), 0);
    assert_eq!(zips[0].page_count(), 6);
    assert_eq!(fs.pool_len(), 4);
    let clusters = one_cluster(&mut fs, &zips);
    assert_eq!(clusters.len(), 1);
    assert_eq!(clusters[0].len(), 2);
    let out = rebuild(&mut fs, &mut zips, clusters);
    assert_eq!(out, vec![with_hole_behind(&x)]);
    assert_eq!(fs.pool_len(), 0);
}

#[test]
fn single_archive_with_pages_out_of_order() {
    let x = archive(&small());
    let order = [3, 0, 4, 2, 1];
    let image: Vec<u8> = order.iter().flat_map(|&i| page(&x, i).to_vec()).collect();
    let mut fs = FragSys::from_bytes(image, PS);
    let mut zips = fs.find_zips();
    assert_eq!(zips.len(), 1);
    let clusters = one_cluster(&mut fs, &zips);
    let out = rebuild(&mut fs, &mut zips, clusters);
    assert_eq!(out, vec![with_hole_behind(&x)]);
}

#[test]
fn page_without_header_stays_a_hole() {
    let x = archive(&small());
    // the second file's data is longer by a page: a page of data alone
    let longer = Recipe { files: vec![(b"a.txt", 16), (b"b.txt", 88)], ..small() };
    let l = archive(&longer);
    assert_eq!(l.len(), 6 * PS);
    let order = [5, 2, 0, 4, 1, 3];
    let image: Vec<u8> = order.iter().flat_map(|&i| page(&l, i).to_vec()).collect();
    let mut fs = FragSys::from_bytes(image, PS);
    let mut zips = fs.find_zips();
    let clusters = one_cluster(&mut fs, &zips);
    let out = rebuild(&mut fs, &mut zips, clusters);
    let mut expected = l[..2 * PS].to_vec();
    expected.extend_from_slice(&[0u8; HOLE_SZ]);
    expected.extend_from_slice(&l[3 * PS..]);
    expected.extend_from_slice(&[0u8; HOLE_SZ]);
    assert_eq!(out, vec![expected]);
    // the page of data is still in the pool
    assert_eq!(fs.pool_len(), 1);
    assert_eq!(x.len(), 5 * PS);
}

#[test]
fn two_archives_with_their_pages_mixed() {
    let x = archive(&small());
    let y = archive(&large());
    let order: [(&Vec<u8>, usize); 12] = [
        (&y, 3),
        (&x, 0),
        (&y, 6),
        (&x, 4),
        (&y, 0),
        (&x, 2),
        (&y, 5),
        (&x, 1),
        (&y, 1),
        (&x, 3),
        (&y, 4),
        (&y, 2),
    ];
    let image: Vec<u8> = order.iter().flat_map(|&(a, i)| page(a, i).to_vec()).collect();
    let mut fs = FragSys::from_bytes(image, PS);
    let mut zips = fs.find_zips();
    assert_eq!(zips.len(), 2);
    assert_eq!(zips[0].eocd().tot_entries, 3);
    assert_eq!(zips[1].eocd().tot_entries, 2);
    let cds = fs.find_cds();
    assert_eq!(cds.iter().map(|c| c.ptr()).collect::<Vec<_>>(), vec![8, 328, 392, 584, 648]);
    assert_eq!(
        cds.iter().map(|c| c.header().filename.as_str()).collect::<Vec<_>>(),
        vec!["c.bin", "a.txt", "e.bin", "b.txt", "d.bin"]
    );

    // the headers are told apart by where they stand among each other
    let points: Vec<cogset::Euclid<[f64; 5]>> = cds
        .iter()
        .map(|c| {
            let p = c.header().to_euclidean();
            cogset::Euclid([p[0] as f64, p[1] as f64, p[2] as f64, p[3] as f64, p[4] as f64])
        })
        .collect();
    let kmeans = cogset::KmeansBuilder::new().kmeans(&points, zips.len());
    assert!(kmeans.converged().is_ok());
    let groups: Vec<Vec<usize>> = kmeans.clusters().into_iter().map(|c| c.1).collect();
    assert_eq!(groups, vec![vec![0, 2, 4], vec![1, 3]]);

    assert!(needs_measuring(cds.len(), zips.len()));
    let out = recover(&mut fs, &mut zips, &cds, Some(groups)).unwrap();
    assert_eq!(out, vec![with_hole_behind(&y), with_hole_behind(&x)]);
    assert_eq!(fs.pool_len(), 0);
}

#[test]
fn rebuilding_step_by_step() {
    let x = archive(&small());
    let order = [3, 0, 4, 2, 1];
    let image: Vec<u8> = order.iter().flat_map(|&i| page(&x, i).to_vec()).collect();
    let mut fs = FragSys::from_bytes(image, PS);
    let mut zips = fs.find_zips();
    let hole = [0u8; HOLE_SZ];
    // new: the page of the record in its place
    assert_eq!(
        zips[0].render_pages(fs.data(), PS),
        [&hole[..], &hole, &hole, &hole, page(&x, 4), &hole].concat()
    );
    let clusters = one_cluster(&mut fs, &zips);
    attribute_clusters(&mut fs, &mut zips, clusters);
    assert_eq!(
        zips[0].render_pages(fs.data(), PS),
        [&hole[..], &hole, page(&x, 2), page(&x, 3), page(&x, 4), &hole].concat()
    );
    assert_eq!(fs.pool_len(), 2);
    let found = zips[0].find_cds(fs.data());
    assert_eq!(found.iter().map(|c| c.ptr()).collect::<Vec<_>>(), vec![2056, 2120]);
    assert_eq!(found.iter().map(|c| c.header().lf_offset).collect::<Vec<_>>(), vec![0, 64]);
    let out = render_archives(&mut fs, &mut zips);
    assert_eq!(out, vec![with_hole_behind(&x)]);
    // a second time nothing is left to move
    place_lf_pages(&mut fs, &mut zips[0]);
    assert_eq!(zips[0].render_pages(fs.data(), PS), with_hole_behind(&x));
}

#[test]
fn cluster_that_has_no_room() {
    let x = archive(&small());
    let mut fs = FragSys::from_bytes([x.clone(), vec![0u8; 4 * PS]].concat(), PS);
    let mut zips = fs.find_zips();
    assert_eq!(fs.pool_len(), 8);
    // headers from six pages, for a skeleton with four places from the
    // central directory's page on
    let far = Cluster::new(&[
        header(0, 0),
        header(1, 64),
        header(2, 320),
        header(3, 321),
        header(4, 384),
        header(5, 448),
        header(6, 512),
    ]);
    let pages = take_pages(&mut FragSys::from_bytes(x.clone(), PS), &far);
    assert_eq!(pages.len(), 2);
    attribute_cluster(&mut fs, &mut zips[0], &far);
    let out = zips[0].render_pages(fs.data(), PS);
    let hole = [0u8; HOLE_SZ];
    assert_eq!(out, [&hole[..], &hole, page(&x, 0), page(&x, 1), &[0u8; 2 * PS]].concat());
    // the pages that found no room have left the pool all the same
    assert_eq!(fs.pool_len(), 2);
}

#[test]
fn best_match_is_the_first_of_the_nearest() {
    let image = [archive(&large()), archive(&small()), archive(&large())].concat();
    let mut fs = FragSys::from_bytes(image, PS);
    let zips = fs.find_zips();
    assert_eq!(zips.iter().map(|z| z.eocd().tot_entries).collect::<Vec<_>>(), vec![3, 2, 3]);
    assert_eq!(best_match(&zips, 3), Some(0));
    assert_eq!(best_match(&zips, 2), Some(1));
    assert_eq!(best_match(&zips, 0), Some(1));
    assert_eq!(best_match(&zips, 1), Some(1));
    assert_eq!(best_match(&zips, 100), Some(0));
    assert_eq!(best_match(&zips, usize::MAX), Some(0));
    assert_eq!(best_match(&Vec::new(), 3), None);
}

#[test]
fn clusters_are_sorted_by_lf_offset() {
    let mut c = Cluster::new(&[header(7, 1), header(3, 2), header(7, 3), header(0, 4), header(3, 5)]);
    c.sort_by_lf_offset();
    let order: Vec<(u32, usize)> =
        (0..c.len()).map(|i| (c.get(i).header().lf_offset, c.get(i).ptr())).collect();
    assert_eq!(order, vec![(0, 4), (3, 2), (3, 5), (7, 1), (7, 3)]);
    let again = c.clone();
    assert_eq!(again.len(), 5);
    assert_eq!(again.get(4), &header(7, 3));
    let mut none = Cluster::new(&[]);
    none.sort_by_lf_offset();
    assert_eq!(none.len(), 0);
}

#[test]
fn groups_become_clusters() {
    let data = [header(0, 10), header(1, 11), header(2, 12)];
    let clusters = cluster_by_groups(&data, &vec![vec![2, 0], vec![], vec![1, 1]]).unwrap();
    assert_eq!(clusters.len(), 3);
    assert_eq!(clusters[0].len(), 2);
    assert_eq!(clusters[0].get(0).ptr(), 12);
    assert_eq!(clusters[0].get(1).ptr(), 10);
    assert_eq!(clusters[1].len(), 0);
    assert_eq!(clusters[2].get(0), &data[1]);
    assert_eq!(clusters[2].get(1), &data[1]);
    assert!(matches!(
        cluster_by_groups(&data, &vec![vec![0], vec![3]]),
        Err(ClusteringError::Descriptive(_))
    ));
    assert!(cluster_by_groups(&data, &Vec::new()).unwrap().is_empty());
}

#[test]
fn groups_that_need_no_measuring() {
    assert_eq!(trivial_groups(3, 0), Some(Vec::new()));
    assert_eq!(trivial_groups(3, 1), Some(vec![vec![0, 1, 2]]));
    assert_eq!(trivial_groups(0, 1), Some(vec![Vec::new()]));
    assert_eq!(trivial_groups(3, 2), None);
    assert_eq!(trivial_groups(0, 5), None);
}

#[test]
fn clustering_that_did_not_settle() {
    let data = [header(0, 10), header(1, 11), header(2, 12)];
    assert!(needs_measuring(3, 2));
    assert!(matches!(cluster(&data, 2, None), Err(ClusteringError::Plain)));
    let clusters = cluster(&data, 2, Some(vec![vec![1], vec![0, 2]])).unwrap();
    assert_eq!(clusters.len(), 2);
    assert_eq!(clusters[0].get(0).ptr(), 11);
    assert_eq!(clusters[1].get(0).ptr(), 10);
    assert_eq!(clusters[1].get(1).ptr(), 12);
    assert!(matches!(
        cluster(&data, 2, Some(vec![vec![3]])),
        Err(ClusteringError::Descriptive(_))
    ));
}

#[test]
fn clustering_without_measuring() {
    let data = [header(0, 10), header(1, 11), header(2, 12)];
    assert!(!needs_measuring(3, 0));
    assert!(!needs_measuring(3, 1));
    assert!(!needs_measuring(3, 3));
    assert!(!needs_measuring(0, 2));
    // no archive, no cluster; one archive, all headers; what k-means says
    // is not looked at
    assert!(cluster(&data, 0, None).unwrap().is_empty());
    let one = cluster(&data, 1, Some(vec![vec![7]])).unwrap();
    assert_eq!(one.len(), 1);
    assert_eq!(one[0].len(), 3);
    assert_eq!(one[0].get(2).ptr(), 12);
    assert_eq!(cluster(&[], 1, None).unwrap()[0].len(), 0);
    // no more headers than clusters
    assert!(matches!(cluster(&data, 3, None), Err(ClusteringError::Descriptive(_))));
    assert!(matches!(
        cluster(&data, 4, Some(vec![vec![0], vec![1], vec![2], vec![]])),
        Err(ClusteringError::Descriptive(_))
    ));
    assert!(matches!(cluster(&[], 2, None), Err(ClusteringError::Descriptive(_))));
}

#[test]
fn failed_clustering_ends_the_run() {
    let x = archive(&small());
    let y = archive(&large());
    let image = [x.clone(), y.clone()].concat();
    let mut fs = FragSys::from_bytes(image, PS);
    let mut zips = fs.find_zips();
    let cds = fs.find_cds();
    assert_eq!((zips.len(), cds.len()), (2, 5));
    let pool = fs.pool_len();
    let before: Vec<Vec<u8>> = zips.iter().map(|z| z.render_pages(fs.data(), PS)).collect();
    assert!(matches!(
        recover(&mut fs, &mut zips, &cds, None),
        Err(ClusteringError::Plain)
    ));
    assert!(matches!(
        recover(&mut fs, &mut zips, &cds, Some(vec![vec![0, 9], vec![1]])),
        Err(ClusteringError::Descriptive(_))
    ));
    assert_eq!(fs.pool_len(), pool);
    let after: Vec<Vec<u8>> = zips.iter().map(|z| z.render_pages(fs.data(), PS)).collect();
    assert_eq!(after, before);
    // the same run with groups
    let out = recover(&mut fs, &mut zips, &cds, Some(vec![vec![0, 1], vec![2, 3, 4]])).unwrap();
    assert_eq!(out, vec![with_hole_behind(&x), with_hole_behind(&y)]);
}

#[test]
fn single_archive_needs_no_outcome() {
    let x = archive(&small());
    let mut fs = FragSys::from_bytes(x.clone(), PS);
    let mut zips = fs.find_zips();
    let cds = fs.find_cds();
    assert!(!needs_measuring(cds.len(), zips.len()));
    assert_eq!(recover(&mut fs, &mut zips, &cds, None).unwrap(), vec![with_hole_behind(&x)]);
    // no archive: nothing to render
    let mut none = FragSys::from_bytes(vec![0u8; 100], PS);
    let mut zips = none.find_zips();
    let cds = none.find_cds();
    assert!(recover(&mut none, &mut zips, &cds, None).unwrap().is_empty());
}

#[test]
fn walking_over_a_cluster() {
    let c = Cluster::new(&[header(7, 1), header(3, 2), header(0, 4)]);
    let mut walk = c.iter();
    let mut seen = Vec::new();
    while let Some(inst) = walk.next() {
        seen.push((inst.ptr(), inst.header().lf_offset));
    }
    assert_eq!(seen, vec![(1, 7), (2, 3), (4, 0)]);
    assert!(walk.next().is_none());
    assert!(Cluster::new(&[]).iter().next().is_none());
}
