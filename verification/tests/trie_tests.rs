use wavelet_trie::bit_vec_wrap::BitVecWrap;
use wavelet_trie::wavelet_trie::TrieError;
use wavelet_trie::wavelet_trie::WaveletTrie;

fn bv(bits: &[bool]) -> BitVecWrap {
    let mut v = BitVecWrap::new();
    for &b in bits {
        v.push(b);
    }
    v
}

// Bulk build from ["00", "01", "10"]: the root factors out the empty
// common prefix and routes by first bit; rank sees whole strings and
// prefixes, and rejects strings that nothing stored starts with.
#[test]
fn bulk_build_fixture() {
    let seqs = vec![
        bv(&[false, false]),
        bv(&[false, true]),
        bv(&[true, false]),
    ];
    let trie = WaveletTrie::from_sequences(&seqs);
    assert_eq!(3, trie.len());
    assert_eq!(Some(1), trie.rank(&bv(&[false, false]), 3));
    assert_eq!(Some(1), trie.rank(&bv(&[false, true]), 3));
    assert_eq!(Some(1), trie.rank(&bv(&[true]), 3));
    assert_eq!(Some(1), trie.rank(&bv(&[true, false]), 3));
    assert_eq!(Some(2), trie.rank(&bv(&[false]), 3));
    assert_eq!(None, trie.rank(&bv(&[true, true]), 3));
}

// A trie filled by single insertions at chosen indices answers rank per
// occurrence: the occurrence inserted at index i is the one counted
// between rank(s, i) and rank(s, i + 1).
#[test]
fn incremental_insert_rank() {
    let mut trie = WaveletTrie::new();
    assert_eq!(Ok(()), trie.insert(&bv(&[false, false]), 0));
    assert_eq!(Ok(()), trie.insert(&bv(&[true, false]), 0));
    assert_eq!(Ok(()), trie.insert(&bv(&[false, true]), 1));
    // logical order of occurrences: "10", "01", "00"
    assert_eq!(3, trie.len());
    assert_eq!(Some(0), trie.rank(&bv(&[true, false]), 0));
    assert_eq!(Some(1), trie.rank(&bv(&[true, false]), 1));
    assert_eq!(Some(0), trie.rank(&bv(&[false, true]), 1));
    assert_eq!(Some(1), trie.rank(&bv(&[false, true]), 2));
    assert_eq!(Some(0), trie.rank(&bv(&[false, false]), 2));
    assert_eq!(Some(1), trie.rank(&bv(&[false, false]), 3));
    assert_eq!(Some(2), trie.rank(&bv(&[false]), 3));
}

// A trie built incrementally answers queries like one built in bulk.
#[test]
fn incremental_matches_bulk() {
    let seqs = vec![
        bv(&[false, false]),
        bv(&[false, true]),
        bv(&[true, false]),
    ];
    let bulk = WaveletTrie::from_sequences(&seqs);
    let mut incremental = WaveletTrie::new();
    assert_eq!(Ok(()), incremental.append(&bv(&[false, false])));
    assert_eq!(Ok(()), incremental.append(&bv(&[false, true])));
    assert_eq!(Ok(()), incremental.append(&bv(&[true, false])));
    assert_eq!(bulk.len(), incremental.len());
    let queries = vec![
        bv(&[false, false]),
        bv(&[false, true]),
        bv(&[true, false]),
        bv(&[false]),
        bv(&[true]),
        bv(&[true, true]),
        bv(&[]),
    ];
    for q in &queries {
        for index in 0..4 {
            assert_eq!(bulk.rank(q, index), incremental.rank(q, index));
        }
    }
}

// Inserting a strict prefix of a stored string, or a strict extension of
// one, is refused and leaves the occurrence count unchanged.
#[test]
fn prefix_conflicts_are_refused() {
    let mut trie = WaveletTrie::new();
    assert_eq!(Ok(()), trie.insert(&bv(&[false, false]), 0));
    assert_eq!(
        Err(TrieError::PrefixConflict),
        trie.insert(&bv(&[false]), 1)
    );
    assert_eq!(1, trie.len());
    assert_eq!(
        Err(TrieError::PrefixConflict),
        trie.insert(&bv(&[false, false, true]), 1)
    );
    assert_eq!(1, trie.len());
    assert_eq!(
        Err(TrieError::PrefixConflict),
        trie.insert(&bv(&[]), 0)
    );
    assert_eq!(1, trie.len());
    // a duplicate of the stored string is no conflict
    assert_eq!(Ok(()), trie.insert(&bv(&[false, false]), 0));
    assert_eq!(2, trie.len());
}

// A conflict found deeper than the root also leaves the trie unchanged.
#[test]
fn deep_prefix_conflict_leaves_trie_unchanged() {
    let seqs = vec![
        bv(&[false, false]),
        bv(&[false, true]),
        bv(&[true, false]),
    ];
    let mut trie = WaveletTrie::from_sequences(&seqs);
    assert_eq!(
        Err(TrieError::PrefixConflict),
        trie.insert(&bv(&[false]), 2)
    );
    assert_eq!(3, trie.len());
    assert_eq!(
        Err(TrieError::PrefixConflict),
        trie.insert(&bv(&[false, true, true]), 0)
    );
    assert_eq!(3, trie.len());
    assert_eq!(Some(1), trie.rank(&bv(&[false, true]), 3));
}

// The empty string is a storable value; anything else then conflicts
// with it.
#[test]
fn empty_string_occupies_the_trie() {
    let mut trie = WaveletTrie::new();
    assert_eq!(0, trie.len());
    assert_eq!(Ok(()), trie.insert(&bv(&[]), 0));
    assert_eq!(1, trie.len());
    assert_eq!(Some(1), trie.rank(&bv(&[]), 1));
    assert_eq!(
        Err(TrieError::PrefixConflict),
        trie.insert(&bv(&[true]), 1)
    );
    assert_eq!(Ok(()), trie.insert(&bv(&[]), 1));
    assert_eq!(2, trie.len());
}

// Duplicates count as separate occurrences, in bulk as well as appended.
#[test]
fn duplicates_accumulate() {
    let seqs = vec![bv(&[true]), bv(&[true])];
    let mut trie = WaveletTrie::from_sequences(&seqs);
    assert_eq!(2, trie.len());
    assert_eq!(Some(2), trie.rank(&bv(&[true]), 2));
    assert_eq!(Ok(()), trie.append(&bv(&[true])));
    assert_eq!(Some(3), trie.rank(&bv(&[true]), 3));
    assert_eq!(None, trie.rank(&bv(&[false]), 3));
}

#[test]
fn empty_batch_builds_empty_trie() {
    let seqs: Vec<BitVecWrap> = Vec::new();
    let trie = WaveletTrie::from_sequences(&seqs);
    assert_eq!(0, trie.len());
}
