use wavelet_trie::bit_vec_wrap::BitVecWrap;
use wavelet_trie::bit_vec_wrap::bytes_round_trip;

#[test]
fn rank_one() {
    let mut bv = BitVecWrap::from_elem(75, false);
    bv.set(4, true);
    bv.set(5, true);
    bv.set(35, true);
    bv.set(74, true);
    assert_eq!(0, bv.rank_one(0));
    assert_eq!(0, bv.rank_one(4));
    assert_eq!(1, bv.rank_one(5));
    assert_eq!(2, bv.rank_one(6));
    assert_eq!(2, bv.rank_one(33));
    assert_eq!(3, bv.rank_one(36));
    assert_eq!(4, bv.rank_one(75));
}

#[test]
fn rank_zero() {
    let mut bv = BitVecWrap::from_elem(75, true);
    bv.set(4, false);
    bv.set(5, false);
    bv.set(35, false);
    bv.set(74, false);
    assert_eq!(0, bv.rank_zero(0));
    assert_eq!(0, bv.rank_zero(4));
    assert_eq!(1, bv.rank_zero(5));
    assert_eq!(2, bv.rank_zero(6));
    assert_eq!(2, bv.rank_zero(33));
    assert_eq!(3, bv.rank_zero(36));
    assert_eq!(4, bv.rank_zero(75));
}

#[test]
fn insert() {
    let mut bv = BitVecWrap::new();
    bv.push(false);
    bv.push(false); // bv = [0,0]
    bv.insert(1, true);
    assert_eq!(false, bv.get(0).unwrap());
    assert_eq!(true, bv.get(1).unwrap());
    assert_eq!(false, bv.get(2).unwrap());
}

#[test]
fn delete() {
    let mut bv = BitVecWrap::new();
    bv.push(true);
    bv.push(false);
    bv.push(true);
    bv.delete(1);
    assert_eq!(true, bv.get(0).unwrap());
    assert_eq!(true, bv.get(1).unwrap());
}

// On equal inputs the common prefix is the whole vector, untruncated.
#[test]
fn longest_common_prefix_equal() {
    let bv1 = BitVecWrap::from_bytes(&[0b01010101]);
    let bv2 = BitVecWrap::from_bytes(&[0b01010101]);
    let longest_common_prefix = bv1.longest_common_prefix(&bv2);
    let should_be_prefix = BitVecWrap::from_bytes(&[0b01010101]);
    assert_eq!(should_be_prefix, longest_common_prefix);
}

#[test]
fn longest_common_prefix_different() {
    let bv1 = BitVecWrap::from_bytes(&[0b01010101, 0b01010101]);
    let bv2 = BitVecWrap::from_bytes(&[0b01010101, 0b01011101, 0b00011101]);
    let longest_common_prefix = bv1.longest_common_prefix(&bv2);
    let mut should_be_prefix = BitVecWrap::from_bytes(&[0b01010101, 0b01011101]);
    should_be_prefix.pop();
    should_be_prefix.pop();
    should_be_prefix.pop();
    should_be_prefix.pop();
    assert_eq!(should_be_prefix, longest_common_prefix);
}

#[test]
fn longest_common_prefix_empty() {
    let bv1 = BitVecWrap::new();
    let bv2 = BitVecWrap::from_bytes(&[0b01010101]);
    let longest_common_prefix = bv1.longest_common_prefix(&bv2);
    assert_eq!(0, longest_common_prefix.len());
}

#[test]
fn different_suffix() {
    let bv1 = BitVecWrap::from_bytes(&[0b01010101, 0b01010101]);
    let bv2 = BitVecWrap::from_bytes(&[0b01010101, 0b01011101, 0b00011101]);
    let longest_common_prefix = bv1.longest_common_prefix(&bv2);
    let mut should_be_suffix = BitVecWrap::from_bytes(&[0b10100011]);
    should_be_suffix.push(true);
    should_be_suffix.push(false);
    should_be_suffix.push(true);
    let result: (bool, BitVecWrap) = bv2.different_suffix(longest_common_prefix.len());
    assert_eq!(should_be_suffix, result.1);
    assert_eq!(true, result.0);
}

// The zero-count and one-count of any window add up to the window itself.
#[test]
fn rank_counts_partition_the_window() {
    let bv = BitVecWrap::from_bytes(&[0b01010101, 0b11110000]);
    for p in 0..17 {
        assert_eq!(bv.rank(false, p) + bv.rank(true, p), p);
    }
}

// select answers where rank asks: the k-th occurrence sits at a position
// holding the bit, with exactly k-1 occurrences before it.
#[test]
fn select_inverts_rank() {
    let bv = BitVecWrap::from_bytes(&[0b01010101]);
    assert_eq!(Some(1), bv.select(true, 1));
    assert_eq!(Some(3), bv.select(true, 2));
    assert_eq!(Some(7), bv.select(true, 4));
    assert_eq!(Some(0), bv.select(false, 1));
    assert_eq!(Some(6), bv.select(false, 4));
    assert_eq!(None, bv.select(true, 5));
    assert_eq!(None, bv.select(false, 5));
    for k in 1..5 {
        let p = bv.select(true, k).unwrap();
        assert_eq!(k - 1, bv.rank(true, p));
        assert_eq!(true, bv.get(p).unwrap());
    }
}

// Inserting a bit and deleting at the same index restores the vector.
#[test]
fn insert_then_delete_restores() {
    let original = BitVecWrap::from_bytes(&[0b11001010]);
    for i in 0..9 {
        for &b in &[false, true] {
            let mut bv = original.copy();
            bv.insert(i, b);
            assert_eq!(b, bv.get(i).unwrap());
            assert_eq!(9, bv.len());
            bv.delete(i);
            assert_eq!(original, bv);
        }
    }
}

// A vector is a prefix of another exactly when it equals the other's
// first bits.
#[test]
fn prefix_relation() {
    let mut short = BitVecWrap::new();
    short.push(true);
    short.push(false);
    let mut long = BitVecWrap::new();
    long.push(true);
    long.push(false);
    long.push(true);
    assert!(short.is_prefix_of(&long));
    assert!(short.is_prefix_of(&short));
    assert!(!long.is_prefix_of(&short));
    let mut other = BitVecWrap::new();
    other.push(true);
    other.push(true);
    assert!(!other.is_prefix_of(&long));
    let empty = BitVecWrap::new();
    assert!(empty.is_prefix_of(&long));
    assert!(empty.is_prefix_of(&empty));
}

// Bytes export then import restores a vector whose length is not a
// multiple of eight, once truncated back; padding bits are ignored.
#[test]
fn byte_round_trip() {
    let mut bv = BitVecWrap::from_bytes(&[0b10110001]);
    bv.push(true);
    bv.push(true);
    bv.push(false); // 11 bits
    let bytes = bv.to_bytes();
    assert_eq!(2, bytes.len());
    assert_eq!(vec![0b10110001, 0b11000000], bytes);
    let mut back = BitVecWrap::from_bytes(&bytes);
    assert_eq!(16, back.len());
    back.truncate(bv.len());
    assert_eq!(bv, back);
    assert_eq!(bv, bytes_round_trip(&bv));
}

#[test]
fn from_bytes_bit_order() {
    let bv = BitVecWrap::from_bytes(&[0b10100000]);
    assert_eq!(8, bv.len());
    assert_eq!(Some(true), bv.get(0));
    assert_eq!(Some(false), bv.get(1));
    assert_eq!(Some(true), bv.get(2));
    assert_eq!(Some(false), bv.get(3));
    assert_eq!(None, bv.get(8));
}

#[test]
fn to_bytes_pads_with_zeros() {
    let mut bv = BitVecWrap::new();
    bv.push(true);
    bv.push(false);
    bv.push(true);
    assert_eq!(vec![0b10100000], bv.to_bytes());
}

#[test]
fn from_elem_and_reductions() {
    let mut bv = BitVecWrap::from_elem(5, true);
    assert!(bv.all());
    assert!(!bv.none());
    assert!(!bv.is_empty());
    assert_eq!(5, bv.len());
    bv.set_none();
    assert!(bv.none());
    assert!(!bv.all());
    assert_eq!(5, bv.len());
    let zeros = BitVecWrap::from_elem(3, false);
    assert!(zeros.none());
    assert!(!zeros.all());
    let empty = BitVecWrap::new();
    assert!(empty.all());
    assert!(empty.none());
    assert!(empty.is_empty());
}

#[test]
fn push_pop_and_truncate() {
    let mut bv = BitVecWrap::new();
    assert_eq!(None, bv.pop());
    bv.push(true);
    bv.push(false);
    bv.push(true);
    assert_eq!(Some(true), bv.pop());
    assert_eq!(2, bv.len());
    bv.push(true);
    bv.truncate(1);
    assert_eq!(1, bv.len());
    assert_eq!(Some(true), bv.get(0));
    bv.truncate(5);
    assert_eq!(1, bv.len());
}

#[test]
fn append_concatenates() {
    let mut bv = BitVecWrap::new();
    bv.push(true);
    bv.push(false);
    let mut tail = BitVecWrap::new();
    tail.push(true);
    bv.append(tail);
    assert_eq!(3, bv.len());
    assert_eq!(Some(true), bv.get(0));
    assert_eq!(Some(false), bv.get(1));
    assert_eq!(Some(true), bv.get(2));
}

#[test]
fn copy_is_independent() {
    let mut bv = BitVecWrap::new();
    bv.push(true);
    bv.push(false);
    let mut dup = bv.copy();
    assert_eq!(bv, dup);
    dup.set(1, true);
    assert_eq!(Some(false), bv.get(1));
    assert_eq!(Some(true), dup.get(1));
}
