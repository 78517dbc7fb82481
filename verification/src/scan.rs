//! Looking for a pattern of bytes in a run of bytes.

use vstd::prelude::*;

verus! {

/// `pattern` stands in `data` at offset `i`.
pub open spec fn matches_at(data: Seq<u8>, pattern: Seq<u8>, i: int) -> bool {
    0 <= i && i + pattern.len() <= data.len() && data.subrange(i, i + pattern.len()) == pattern
}

/// The offsets at or after `from` at which `pattern` stands in `data`, from
/// left to right, none of them inside the match before it.
pub open spec fn find_from(data: Seq<u8>, pattern: Seq<u8>, from: int) -> Seq<int>
    decreases data.len() - from,
{
    if pattern.len() == 0 || from < 0 || from + pattern.len() > data.len() {
        Seq::empty()
    } else if matches_at(data, pattern, from) {
        seq![from] + find_from(data, pattern, from + pattern.len())
    } else {
        find_from(data, pattern, from + 1)
    }
}

/// The offsets at which `pattern` stands in `data`, from left to right, none
/// of them inside the match before it.
pub open spec fn find_all(data: Seq<u8>, pattern: Seq<u8>) -> Seq<int> {
    find_from(data, pattern, 0)
}

/// A list of offsets as numbers.
pub open spec fn offsets(ptrs: Seq<usize>) -> Seq<int> {
    ptrs.map_values(|p: usize| p as int)
}

/// The first of the offsets `ptrs` at which `key` stands in `data`.
pub open spec fn first_hit(data: Seq<u8>, key: Seq<u8>, ptrs: Seq<int>) -> Option<int>
    decreases ptrs.len(),
{
    if ptrs.len() == 0 {
        None
    } else if matches_at(data, key, ptrs[0]) {
        Some(ptrs[0])
    } else {
        first_hit(data, key, ptrs.drop_first())
    }
}

/// No end of `pattern` is also its start: two matches cannot overlap.
pub open spec fn no_self_overlap(pattern: Seq<u8>) -> bool {
    forall|s: int|
        0 < s < pattern.len() ==> #[trigger] pattern.subrange(s, pattern.len() as int)
            != pattern.subrange(0, pattern.len() - s)
}

/// Every offset found is a match, and the offsets ascend, each at least a
/// pattern's length behind the one before.
pub proof fn lemma_find_sound(data: Seq<u8>, pattern: Seq<u8>, from: int)
    ensures
        forall|k: int|
            0 <= k < find_from(data, pattern, from).len() ==> from <= #[trigger] find_from(
                data,
                pattern,
                from,
            )[k] && matches_at(data, pattern, find_from(data, pattern, from)[k]),
        forall|k: int|
            0 < k < find_from(data, pattern, from).len() ==> find_from(data, pattern, from)[k
                - 1] + pattern.len() <= #[trigger] find_from(data, pattern, from)[k],
    decreases data.len() - from,
{
    let found = find_from(data, pattern, from);
    if pattern.len() == 0 || from < 0 || from + pattern.len() > data.len() {
    } else if matches_at(data, pattern, from) {
        let next = find_from(data, pattern, from + pattern.len());
        lemma_find_sound(data, pattern, from + pattern.len());
        assert forall|k: int| 0 <= k < found.len() implies from <= #[trigger] found[k]
            && matches_at(data, pattern, found[k]) by {
            if k > 0 {
                assert(found[k] == next[k - 1]);
            }
        }
        assert forall|k: int| 0 < k < found.len() implies found[k - 1] + pattern.len()
            <= #[trigger] found[k] by {
            assert(found[k] == next[k - 1]);
            if k > 1 {
                assert(found[k - 1] == next[k - 2]);
            }
        }
    } else {
        lemma_find_sound(data, pattern, from + 1);
        assert(found == find_from(data, pattern, from + 1));
    }
}

/// Where two matches cannot overlap, every match is found.
pub proof fn lemma_find_complete(data: Seq<u8>, pattern: Seq<u8>, from: int, i: int)
    requires
        pattern.len() > 0,
        no_self_overlap(pattern),
        0 <= from <= i,
        matches_at(data, pattern, i),
    ensures
        find_from(data, pattern, from).contains(i),
    decreases data.len() - from,
{
    let found = find_from(data, pattern, from);
    let n = pattern.len() as int;
    if matches_at(data, pattern, from) {
        let next = find_from(data, pattern, from + n);
        if i == from {
            assert(found[0] == i);
        } else {
            if i < from + n {
                let s = i - from;
                let a = data.subrange(from, from + n);
                let b = data.subrange(i, i + n);
                assert(pattern.subrange(s, n) =~= data.subrange(i, from + n)) by {
                    assert(a.subrange(s, n) =~= data.subrange(i, from + n));
                }
                assert(pattern.subrange(0, n - s) =~= data.subrange(i, from + n)) by {
                    assert(b.subrange(0, n - s) =~= data.subrange(i, from + n));
                }
                assert(false);
            }
            lemma_find_complete(data, pattern, from + n, i);
            let k = choose|k: int| 0 <= k < next.len() && next[k] == i;
            assert(found[k + 1] == i);
        }
    } else {
        lemma_find_complete(data, pattern, from + 1, i);
    }
}

/// The magics of ZIP headers, `P`, `K` and two small numbers, cannot overlap
/// themselves.
pub proof fn lemma_magic_no_self_overlap(third: u8, fourth: u8)
    requires
        third != 0x50,
        fourth != 0x50,
    ensures
        no_self_overlap(seq![0x50u8, 0x4bu8, third, fourth]),
{
    let p = seq![0x50u8, 0x4bu8, third, fourth];
    assert forall|s: int| 0 < s < p.len() implies #[trigger] p.subrange(s, p.len() as int)
        != p.subrange(0, p.len() - s) by {
        assert(p.subrange(s, p.len() as int)[0] == p[s]);
        assert(p.subrange(0, p.len() - s)[0] == p[0]);
    }
}

/// Whether `pattern` stands in `data` at offset `i`.
fn matches_here(data: &[u8], pattern: &[u8], i: usize) -> (b: bool)
    requires
        i + pattern.len() <= data.len(),
    ensures
        b == matches_at(data@, pattern@, i as int),
{
    let n: usize = pattern.len();
    let mut j: usize = 0;
    while j < n
        invariant
            n == pattern.len(),
            i + n <= data.len(),
            j <= n,
            forall|k: int| 0 <= k < j ==> data@[i + k] == pattern@[k],
        decreases n - j,
    {
        if data[i + j] != pattern[j] {
            proof {
                assert(data@.subrange(i as int, i + n)[j as int] == data@[i + j]);
            }
            return false;
        }
        j += 1;
    }
    proof {
        assert(data@.subrange(i as int, i + n) =~= pattern@);
    }
    true
}

/// Finds every offset at which `pattern` stands in `data`, from left to
/// right. After a match the search goes on behind it, so no two matches
/// overlap.
pub fn find_bytes(data: &[u8], pattern: &[u8]) -> (findings: Vec<usize>)
    requires
        pattern@.len() > 0,
    ensures
        offsets(findings@) == find_all(data@, pattern@),
        forall|k: int|
            0 <= k < findings@.len() ==> matches_at(data@, pattern@, #[trigger] findings@[k] as int),
        no_self_overlap(pattern@) ==> forall|i: int|
            matches_at(data@, pattern@, i) ==> exists|k: int|
                0 <= k < findings@.len() && #[trigger] findings@[k] == i,
{
    let n: usize = pattern.len();
    let mut findings: Vec<usize> = Vec::new();
    if data.len() < n {
        proof {
            assert(offsets(findings@) =~= find_all(data@, pattern@));
            assert forall|i: int| matches_at(data@, pattern@, i) implies false by {}
        }
        return findings;
    }
    let last: usize = data.len() - n;
    let mut cursor: usize = 0;
    while cursor <= last
        invariant
            n == pattern.len(),
            n > 0,
            last + n == data.len(),
            offsets(findings@) + find_from(data@, pattern@, cursor as int)
                == find_all(data@, pattern@),
        decreases data.len() - cursor,
    {
        let ghost before = offsets(findings@);
        if matches_here(data, pattern, cursor) {
            findings.push(cursor);
            proof {
                let rest = find_from(data@, pattern@, cursor + n);
                assert(offsets(findings@) =~= before + seq![
                    cursor as int,
                ]);
                assert(before + (seq![cursor as int] + rest) =~= before + seq![cursor as int]
                    + rest);
            }
            cursor = cursor + n;
        } else {
            cursor = cursor + 1;
        }
    }
    proof {
        let ints = offsets(findings@);
        assert(find_from(data@, pattern@, cursor as int) =~= Seq::<int>::empty());
        assert(ints =~= find_all(data@, pattern@));
        lemma_find_sound(data@, pattern@, 0);
        assert forall|k: int| 0 <= k < findings@.len() implies matches_at(
            data@,
            pattern@,
            #[trigger] findings@[k] as int,
        ) by {
            assert(ints[k] == findings@[k] as int);
        }
        if no_self_overlap(pattern@) {
            assert forall|i: int| matches_at(data@, pattern@, i) implies exists|k: int|
                0 <= k < findings@.len() && #[trigger] findings@[k] == i by {
                lemma_find_complete(data@, pattern@, 0, i);
                let k = choose|k: int| 0 <= k < ints.len() && ints[k] == i;
                assert(findings@[k] == i);
            }
        }
    }
    findings
}

} // verus!
