use zipdefrag::chunks::LF;
use zipdefrag::parser::{parse_lf, ParseError};
use zipdefrag::pool::{FragSys, Page};
use zipdefrag::scan::find_bytes;
use zipdefrag::skeleton::{SkeletonError, ZipFile, HOLE_SZ};

fn range_of(page: &Page) -> Option<(usize, usize)> {
    match page {
        Page::Assigned(r) => Some((r.start, r.end)),
        Page::Unassigned => None,
    }
}

fn eocd(cd_sz: u32, cd_offset: u32, tot: u16, comment: &[u8]) -> Vec<u8> {
    let mut out = b"PK\x05\x06\x00\x00\x00\x00".to_vec();
    out.extend_from_slice(&tot.to_le_bytes());
    out.extend_from_slice(&tot.to_le_bytes());
    out.extend_from_slice(&cd_sz.to_le_bytes());
    out.extend_from_slice(&cd_offset.to_le_bytes());
    out.extend_from_slice(&(comment.len() as u16).to_le_bytes());
    out.extend_from_slice(comment);
    out
}

fn image_with(len: usize, at: usize, what: &[u8]) -> Vec<u8> {
    let mut image = vec![0xaau8; len];
    image[at..at + what.len()].copy_from_slice(what);
    image
}

#[test]
fn page_contains_its_range() {
    let page = Page::Assigned(64..128);
    assert!(page.contains(64));
    assert!(page.contains(127));
    assert!(!page.contains(63));
    assert!(!page.contains(128));
    assert!(!Page::Unassigned.contains(0));
    assert_eq!(range_of(&page.clone()), Some((64, 128)));
}

#[test]
fn find_bytes_goes_on_behind_a_match() {
    assert_eq!(find_bytes(b"aaaaa", b"aa"), vec![0, 2]);
    assert_eq!(find_bytes(b"xPK\x05\x06PK\x05\x06PK\x05", b"PK\x05\x06"), vec![1, 5]);
    assert_eq!(find_bytes(b"abc", b"abcd"), Vec::<usize>::new());
    assert_eq!(find_bytes(b"abcd", b"abcd"), vec![0]);
    assert_eq!(find_bytes(b"", b"a"), Vec::<usize>::new());
    assert_eq!(find_bytes(b"zzab", b"ab"), vec![2]);
}

#[test]
fn pool_holds_every_page_once() {
    let mut fs = FragSys::from_bytes(vec![0u8; 200], 64);
    assert_eq!(fs.page_sz(), 64);
    assert_eq!(fs.pool_len(), 4);
    assert_eq!(fs.data().len(), 200);
    // the last page is as long as the others, and reaches behind the image
    assert_eq!(fs.get_pg_for_addr(199).as_ref().and_then(range_of), Some((192, 256)));
    assert_eq!(fs.pool_len(), 3);
    assert_eq!(fs.get_pg_for_addr(70).as_ref().and_then(range_of), Some((64, 128)));
    // every address of a page that was taken finds nothing
    for addr in 64..128 {
        assert!(fs.get_pg_for_addr(addr).is_none());
    }
    assert!(fs.get_pg_for_addr(255).is_none());
    assert!(fs.get_pg_for_addr(256).is_none());
    assert_eq!(fs.pool_len(), 2);
    assert_eq!(fs.get_pg_for_addr(0).as_ref().and_then(range_of), Some((0, 64)));
    assert_eq!(fs.get_pg_for_addr(128).as_ref().and_then(range_of), Some((128, 192)));
    assert_eq!(fs.pool_len(), 0);
    assert!(fs.get_pg_for_addr(0).is_none());
}

#[test]
fn pool_of_whole_pages_and_of_nothing() {
    assert_eq!(FragSys::from_bytes(vec![0u8; 128], 64).pool_len(), 2);
    assert_eq!(FragSys::from_bytes(vec![0u8; 129], 64).pool_len(), 3);
    assert_eq!(FragSys::from_bytes(vec![0u8; 1], 0x400).pool_len(), 1);
    let mut empty = FragSys::from_bytes(Vec::new(), 64);
    assert_eq!(empty.pool_len(), 0);
    assert!(empty.get_pg_for_addr(0).is_none());
    assert!(empty.find_zips().is_empty());
    assert!(empty.find_cds().is_empty());
}

#[test]
fn pool_finds_magics() {
    let mut image = vec![0u8; 64];
    image[3..7].copy_from_slice(b"PK\x03\x04");
    image[20..24].copy_from_slice(b"PK\x05\x06");
    image[40..44].copy_from_slice(b"PK\x03\x04");
    image[60..64].copy_from_slice(b"PK\x01\x02");
    let mut fs = FragSys::from_bytes(image, 16);
    assert_eq!(fs.find_lfs(), vec![3, 40]);
    assert_eq!(fs.find_eocds(), vec![20]);
    assert_eq!(fs.find_bytes(b"PK"), vec![3, 20, 40, 60]);
    // magics alone are no headers
    assert!(fs.find_cds().is_empty());
    assert!(fs.find_zips().is_empty());
    assert_eq!(fs.pool_len(), 4);
}

#[test]
fn find_lf_takes_the_first_offset_that_matches() {
    let raw_lf = b"PK\x03\x04\n\x00\x00\x08\x08\x00N\x83EIRa\xe7Sh\
                   \x00\x00\x00u\x00\x00\x00\x01\x00\x00\x00b";
    let (_, lf) = parse_lf(raw_lf).unwrap();
    let mut image = vec![0u8; 100];
    image[10..41].copy_from_slice(raw_lf);
    image[50..81].copy_from_slice(raw_lf);
    image[90..94].copy_from_slice(b"PK\x03\x04");
    let fs = FragSys::from_bytes(image, 32);
    let lfp = fs.find_lfs();
    assert_eq!(lfp, vec![10, 50, 90]);
    assert_eq!(fs.find_lf(&lf, &lfp), Some(10));
    assert_eq!(fs.find_lf(&lf, &[90, 50, 10]), Some(50));
    assert_eq!(fs.find_lf(&lf, &[90, 11, 1000]), None);
    assert_eq!(fs.find_lf(&lf, &[]), None);
    let other = LF { method: 0, ..lf };
    assert_eq!(fs.find_lf(&other, &lfp), None);
}

#[test]
fn skeleton_geometry() {
    // the record stands at offset 27 of the second page; the archive starts
    // with the first page
    let mut fs = FragSys::from_bytes(image_with(128, 91, &eocd(51, 40, 1, b"")), 64);
    let zf = ZipFile::new(&mut fs, 91).unwrap();
    assert_eq!(zf.init_offs(), 0);
    assert_eq!(zf.page_count(), 3);
    assert_eq!(zf.eocd().tot_entries, 1);
    assert_eq!(fs.pool_len(), 1);
    assert_eq!(zf.get_cd_start_pg_idx(64), 0);
    assert_eq!(zf.get_pg_idx_for_offs(64, 64), 1);
    assert_eq!(zf.get_pg_idx_for_offs(63, 64), 0);
    // the pages reach behind the record
    assert!(zf.page_count() * 64 >= 91 + 22);
    let out = zf.render_pages(fs.data(), 64);
    let mut expected = vec![0u8; HOLE_SZ];
    expected.extend_from_slice(&fs.data()[64..128]);
    expected.extend_from_slice(&vec![0u8; HOLE_SZ]);
    assert_eq!(out, expected);
}

#[test]
fn skeleton_that_starts_within_a_page() {
    // 100 bytes of archive end at offset 10 of a page: the archive starts at
    // offset 38 of its first page
    let mut fs = FragSys::from_bytes(image_with(640, 138, &eocd(60, 40, 2, b"")), 64);
    let zf = ZipFile::new(&mut fs, 138).unwrap();
    assert_eq!(zf.init_offs(), 38);
    // one page for the start, one for the record, and (100 - 10 - 38) / 64
    assert_eq!(zf.page_count(), 2 + 1);
    assert_eq!(zf.get_cd_start_pg_idx(64), 1);
    assert_eq!(zf.get_pg_idx_for_offs(25, 64), 0);
    assert_eq!(zf.get_pg_idx_for_offs(26, 64), 1);
    assert!(zf.init_offs() < 64);
    assert!(zf.page_count() * 64 > 100);
}

#[test]
fn skeleton_failures() {
    let mut fs = FragSys::from_bytes(image_with(128, 91, &eocd(51, 40, 1, b"")), 64);
    assert!(matches!(ZipFile::new(&mut fs, 90), Err(SkeletonError::Parse(ParseError::BadMagic))));
    assert!(matches!(ZipFile::new(&mut fs, 128), Err(SkeletonError::Parse(ParseError::BadMagic))));
    assert!(matches!(ZipFile::new(&mut fs, 5000), Err(SkeletonError::Parse(ParseError::BadMagic))));
    assert_eq!(fs.pool_len(), 2);
    // a record cut off by the end of the image
    let mut cut = FragSys::from_bytes(image_with(128, 91, &eocd(51, 40, 1, b""))[..100].to_vec(), 64);
    assert!(matches!(ZipFile::new(&mut cut, 91), Err(SkeletonError::Parse(ParseError::Incomplete))));
    // the central directory would end before the record's place in its page
    let mut early = FragSys::from_bytes(image_with(128, 91, &eocd(10, 10, 1, b"")), 64);
    assert!(matches!(ZipFile::new(&mut early, 91), Err(SkeletonError::Geometry)));
    // one byte less than the record's place asks for
    let mut short = FragSys::from_bytes(image_with(128, 91, &eocd(20, 6, 1, b"")), 64);
    assert!(matches!(ZipFile::new(&mut short, 91), Err(SkeletonError::Geometry)));
    assert_eq!(short.pool_len(), 2);
}

#[test]
fn skeleton_of_an_empty_archive() {
    // the record starts a page: there is no place before the one hole, and
    // the page of the record stands nowhere
    let mut none = FragSys::from_bytes(image_with(128, 64, &eocd(0, 0, 0, b"")), 64);
    let zf = ZipFile::new(&mut none, 64).unwrap();
    assert_eq!(zf.init_offs(), 0);
    assert_eq!(zf.page_count(), 1);
    assert_eq!(zf.render_pages(none.data(), 64), vec![0u8; HOLE_SZ]);
    assert_eq!(none.pool_len(), 1);
    assert!(none.get_pg_for_addr(64).is_none());
    // within a page the record has its place
    let mut some = FragSys::from_bytes(image_with(128, 27, &eocd(27, 0, 0, b"")), 64);
    let zf = ZipFile::new(&mut some, 27).unwrap();
    assert_eq!(zf.page_count(), 2);
    let mut expected = some.data()[..64].to_vec();
    expected.extend_from_slice(&[0u8; HOLE_SZ]);
    assert_eq!(zf.render_pages(some.data(), 64), expected);
}

#[test]
fn skeleton_with_more_pages_than_the_pool() {
    // the skeleton is made whatever the pool holds, and takes its page
    let mut large = FragSys::from_bytes(image_with(128, 91, &eocd(51, 168, 1, b"")), 64);
    let zf = ZipFile::new(&mut large, 91).unwrap();
    assert_eq!(zf.page_count(), 5);
    assert_eq!(large.pool_len(), 1);
    // among the skeletons of the image it is left out, its page taken
    let mut large = FragSys::from_bytes(image_with(128, 91, &eocd(51, 168, 1, b"")), 64);
    assert!(large.find_zips().is_empty());
    assert_eq!(large.pool_len(), 1);
    assert!(large.get_pg_for_addr(91).is_none());
    // as many pages as the pool holds before the page is taken
    let mut fits = FragSys::from_bytes(image_with(128, 91, &eocd(51, 40, 1, b"")), 64);
    assert_eq!(fits.find_zips().len(), 1);
    assert_eq!(fits.pool_len(), 1);
    // one more
    let mut over = FragSys::from_bytes(image_with(128, 91, &eocd(51, 104, 1, b"")), 64);
    assert!(over.find_zips().is_empty());
    assert_eq!(over.pool_len(), 1);
}

#[test]
fn skeleton_of_a_record_in_a_small_image() {
    let mut record = b"PK\x05\x06\x00\x00\x00\x00\x9c\x03\x9c\x03\xbf\xdb\x00\x00\nm\t\x00\x00\x00".to_vec();
    record.extend_from_slice(&[0xff; 40]);
    assert_eq!(record.len(), 62);
    let mut fs = FragSys::from_bytes(record.to_vec(), 31);
    assert_eq!(fs.pool_len(), 2);
    let zf = ZipFile::new(&mut fs, 0).unwrap();
    assert_eq!(zf.eocd().dsk_entries, 924);
    assert_eq!(zf.eocd().tot_entries, 924);
    assert_eq!(zf.eocd().cd_sz, 56255);
    assert_eq!(zf.eocd().cd_offset, 617738);
    assert_eq!(zf.eocd().cmt_len, 0);
    assert_eq!(zf.eocd().zip_cmt, "");
    assert_eq!(zf.init_offs(), 9);
    assert_eq!(zf.page_count(), 21743);
    assert_eq!(fs.pool_len(), 1);
    // the driver drops it
    let mut fs = FragSys::from_bytes(record.to_vec(), 31);
    assert!(fs.find_zips().is_empty());
    assert_eq!(fs.pool_len(), 1);
}

#[test]
fn images_that_the_machine_cannot_count() {
    assert!(FragSys::try_from_bytes(vec![0u8; 10], 0).is_none());
    assert!(FragSys::try_from_bytes(vec![0u8; 10], usize::MAX).is_none());
    assert!(FragSys::try_from_bytes(vec![0u8; 10], usize::MAX - 9).is_none());
    let fs = FragSys::try_from_bytes(vec![0u8; 10], usize::MAX - 10).unwrap();
    assert_eq!(fs.pool_len(), 1);
    let fs = FragSys::try_from_bytes(vec![0u8; 10], 3).unwrap();
    assert_eq!(fs.pool_len(), 4);
    assert_eq!(fs.page_sz(), 3);
    assert_eq!(fs.data(), &vec![0u8; 10]);
}

#[test]
fn skeleton_whose_page_was_taken() {
    let mut fs = FragSys::from_bytes(image_with(192, 91, &eocd(51, 40, 1, b"")), 64);
    assert!(fs.get_pg_for_addr(64).is_some());
    let zf = ZipFile::new(&mut fs, 91).unwrap();
    assert_eq!(zf.render_pages(fs.data(), 64), vec![0u8; 3 * HOLE_SZ]);
    assert_eq!(fs.pool_len(), 2);
    // what the pool holds plays no part
    assert!(fs.get_pg_for_addr(0).is_some());
    assert!(fs.get_pg_for_addr(128).is_some());
    assert_eq!(fs.pool_len(), 0);
    assert_eq!(ZipFile::new(&mut fs, 91).unwrap().page_count(), 3);
}

#[test]
fn pages_are_assigned_in_place() {
    let mut fs = FragSys::from_bytes(image_with(320, 283, &eocd(51, 232, 1, b"")), 64);
    let mut zf = ZipFile::new(&mut fs, 283).unwrap();
    assert_eq!(zf.page_count(), 6);
    let data: Vec<u8> = (0..320u32).map(|i| (i / 64) as u8 + 1).collect();
    let show = |zf: &ZipFile| -> Vec<u8> {
        zf.render_pages(&data, 64).chunks(64).map(|c| c[0]).collect::<Vec<u8>>()
    };
    let hole = vec![0u8; HOLE_SZ / 64];
    let holes = |n: usize| hole.repeat(n);
    assert_eq!(show(&zf), [holes(4), vec![5], holes(1)].concat());
    zf.assign_pages(1, vec![Page::Assigned(0..64), Page::Unassigned, Page::Assigned(128..192)]);
    assert_eq!(zf.page_count(), 6);
    assert_eq!(show(&zf), [holes(1), vec![1], holes(1), vec![3, 5], holes(1)].concat());
    zf.assign_pages(4, vec![Page::Assigned(64..128), Page::Assigned(192..256)]);
    assert_eq!(show(&zf), [holes(1), vec![1], holes(1), vec![3, 2, 4]].concat());
    zf.assign_pages(6, Vec::new());
    zf.assign_page(0, Page::Assigned(256..320));
    assert_eq!(show(&zf), [vec![5, 1], holes(1), vec![3, 2, 4]].concat());
    // there is no seventh place
    zf.assign_page(6, Page::Assigned(0..64));
    zf.assign_page(usize::MAX, Page::Assigned(0..64));
    assert_eq!(zf.page_count(), 6);
    assert_eq!(show(&zf), [vec![5, 1], holes(1), vec![3, 2, 4]].concat());
}

#[test]
fn rendering_gives_what_the_image_holds_of_a_page() {
    let mut fs = FragSys::from_bytes(image_with(128, 91, &eocd(51, 40, 1, b"")), 64);
    let mut zf = ZipFile::new(&mut fs, 91).unwrap();
    let data: Vec<u8> = (0..100u8).collect();
    zf.assign_pages(0, vec![Page::Assigned(0..64), Page::Assigned(64..128), Page::Assigned(128..192)]);
    // the second page is cut at the end of the data, the third lies behind it
    assert_eq!(zf.render_pages(&data, 64), data);
    assert_eq!(zf.render_pages(&data, 1), data);
    assert_eq!(zf.render_pages(&[], 64), Vec::<u8>::new());
    zf.assign_page(1, Page::Unassigned);
    let mut expected = data[..64].to_vec();
    expected.extend_from_slice(&[0u8; 1024]);
    assert_eq!(zf.render_pages(&data, 64), expected);
}

#[test]
fn skeleton_with_a_long_comment() {
    // the record starts a page, and its comment is longer than the page
    // behind the central directory
    let comment = [b'c'; 100];
    let mut fs = FragSys::from_bytes(image_with(192, 64, &eocd(24, 40, 1, &comment)), 64);
    let zf = ZipFile::new(&mut fs, 64).unwrap();
    assert_eq!(zf.eocd().cmt_len, 100);
    assert_eq!(zf.init_offs(), 0);
    assert_eq!(zf.page_count(), 2);
    assert!(zf.page_count() * 64 > 64);
    assert!(zf.page_count() * 64 < 64 + 22 + 100);
}
