//! The wavelet trie: a binary tree over a multiset of bit strings, where
//! each node holds a shared prefix and a bitmap routing occurrences to its
//! children, supporting positional insertion and prefix rank queries.

use vstd::prelude::*;

use crate::bit_vec_wrap::BitVecWrap;
use crate::bit_vec_wrap::bit_count;
use crate::bit_vec_wrap::bits;
use crate::bit_vec_wrap::is_prefix;
use crate::bit_vec_wrap::is_strict_prefix;
use crate::bit_vec_wrap::lemma_bit_count_agree;
use crate::bit_vec_wrap::lemma_bit_count_bounds;
use crate::bit_vec_wrap::lemma_bit_count_const;
use crate::bit_vec_wrap::lemma_bit_count_insert;
use crate::bit_vec_wrap::lemma_bit_count_insert_window;
use crate::bit_vec_wrap::lemma_bit_count_mono;
use crate::bit_vec_wrap::lemma_bit_count_push;
use crate::bit_vec_wrap::lemma_prefix_trans;
use crate::bit_vec_wrap::lemma_rank_partition;
use crate::bit_vec_wrap::lemma_skip_strict_prefix;
use crate::bit_vec_wrap::lemma_strict_prefix_skip;

verus! {

/// Why a trie operation was refused.
#[derive(Clone, Copy, Debug, PartialEq, Eq, Structural)]
pub enum TrieError {
    /// The new string is a prefix of a stored one, or has a stored one as
    /// a prefix; storing it would break the prefix-free invariant.
    PrefixConflict,
    /// A child that the structure's invariants promise was absent; a
    /// defect of the structure, never caused by caller input.
    StructuralInvariantViolation,
}

/// A node of the trie: a shared prefix, a bitmap routing each occurrence
/// to a child, and the two optional children.
pub struct WaveletTrie {
    prefix: BitVecWrap,
    positions: BitVecWrap,
    left: Option<Box<WaveletTrie>>,
    right: Option<Box<WaveletTrie>>,
}

/// The number of occurrences recorded at the root of `t`.
pub closed spec fn t_len(t: WaveletTrie) -> nat {
    bits(t.positions).len()
}

/// Structural soundness of a node: children come in pairs, an empty node
/// carries an empty prefix, a leaf's bitmap holds only `false`, and an
/// internal node's bitmap partitions its occurrences between the two
/// children's own occurrence counts.
pub closed spec fn t_wf(t: WaveletTrie) -> bool
    decreases t,
{
    &&& (t.left is Some <==> t.right is Some)
    &&& (t_len(t) == 0 ==> t.left is None && bits(t.prefix).len() == 0)
    &&& (t.left is None ==> forall|i: int|
        0 <= i < bits(t.positions).len() ==> !#[trigger] bits(t.positions)[i])
    &&& match (t.left, t.right) {
        (Some(l), Some(r)) => {
            &&& bit_count(bits(t.positions), false, t_len(t) as int) == t_len(*l)
            &&& bit_count(bits(t.positions), true, t_len(t) as int) == t_len(*r)
            &&& t_wf(*l)
            &&& t_wf(*r)
        },
        _ => true,
    }
}

/// The answer that a rank query must give, following the routing rules:
/// an empty or fully matching query counts every occurrence up to `index`;
/// a query shorter than the prefix matches all or nothing; a longer query
/// peels the prefix and one routing bit off and recurses with the index
/// translated through the bitmap.
pub closed spec fn rank_spec(t: WaveletTrie, s: Seq<bool>, index: int) -> Option<int>
    decreases t,
{
    let p = bits(t.prefix);
    if s.len() == 0 || s == p {
        Some(index)
    } else if s.len() < p.len() {
        if is_prefix(s, p) {
            Some(index)
        } else {
            None
        }
    } else if is_prefix(p, s) {
        let b = s[p.len() as int];
        let suffix = s.skip(p.len() as int + 1);
        let ni = bit_count(bits(t.positions), b, index);
        if b {
            match t.right {
                Some(r) => rank_spec(*r, suffix, ni),
                None => Some(ni),
            }
        } else {
            match t.left {
                Some(l) => rank_spec(*l, suffix, ni),
                None => Some(ni),
            }
        }
    } else {
        None
    }
}

/// Whether inserting the string `s` into `t` must be refused: the string
/// is empty-or-equal at an internal node, a strict prefix of the node's
/// prefix, extends a leaf's full value, or conflicts deeper down.
pub closed spec fn conflict_spec(t: WaveletTrie, s: Seq<bool>) -> bool
    decreases t,
{
    let p = bits(t.prefix);
    if t_len(t) == 0 {
        false
    } else if s == p {
        t.left is Some
    } else if is_strict_prefix(s, p) {
        true
    } else if is_strict_prefix(p, s) {
        match (t.left, t.right) {
            (Some(l), Some(r)) => {
                let b = s[p.len() as int];
                let suffix = s.skip(p.len() as int + 1);
                if b {
                    conflict_spec(*r, suffix)
                } else {
                    conflict_spec(*l, suffix)
                }
            },
            _ => true,
        }
    } else {
        false
    }
}

/// Some occurrence with the exact value `w` is stored in `t`: at a leaf
/// the stored value is the prefix itself; at an internal node the value
/// extends the prefix by one routing bit and is stored in that child.
pub closed spec fn stores(t: WaveletTrie, w: Seq<bool>) -> bool
    decreases t,
{
    t_len(t) > 0 && {
        let p = bits(t.prefix);
        match (t.left, t.right) {
            (Some(l), Some(r)) => is_strict_prefix(p, w) && {
                let b = w[p.len() as int];
                let suffix = w.skip(p.len() as int + 1);
                if b {
                    stores(*r, suffix)
                } else {
                    stores(*l, suffix)
                }
            },
            _ => w == p,
        }
    }
}

/// Law: a string that is a strict prefix of a stored string, or strictly
/// extended by one, is in conflict with the trie, so inserting it is
/// refused with the structure unchanged.
pub proof fn lemma_prefix_conflict(t: WaveletTrie, w: Seq<bool>, s: Seq<bool>)
    requires
        t_wf(t),
        stores(t, w),
        is_strict_prefix(s, w) || is_strict_prefix(w, s),
    ensures
        conflict_spec(t, s),
    decreases t,
{
    let p = bits(t.prefix);
    match (t.left, t.right) {
        (Some(l), Some(r)) => {
            let bw = w[p.len() as int];
            let sufw = w.skip(p.len() as int + 1);
            if s == p {
                // an internal node makes every stored value extend `p`
            } else if is_strict_prefix(s, p) {
            } else if is_strict_prefix(p, s) {
                let sufs = s.skip(p.len() as int + 1);
                if is_strict_prefix(s, w) {
                    assert(s[p.len() as int] == bw);
                    lemma_strict_prefix_skip(s, w, p.len() as int);
                } else {
                    assert(w[p.len() as int] == bw);
                    assert(s[p.len() as int] == bw);
                    lemma_strict_prefix_skip(w, s, p.len() as int);
                }
                if bw {
                    lemma_prefix_conflict(*r, sufw, sufs);
                } else {
                    lemma_prefix_conflict(*l, sufw, sufs);
                }
            } else {
                // impossible: `s` and `p` are both related to `w` along
                // one path, so one must be a prefix of the other
                if is_strict_prefix(s, w) {
                    if s.len() <= p.len() {
                        assert(is_prefix(s, p));
                        if s.len() == p.len() {
                            assert(s =~= p);
                        }
                    } else {
                        assert(is_prefix(p, s));
                    }
                    assert(false);
                } else {
                    assert(is_prefix(p, s));
                    assert(false);
                }
            }
        },
        _ => {
            assert(w == p);
        },
    }
}

/// Law: an empty trie refuses nothing.
pub proof fn lemma_empty_no_conflict(t: WaveletTrie, s: Seq<bool>)
    requires
        t_len(t) == 0,
    ensures
        !conflict_spec(t, s),
{
}

/// A well-formed trie holding occurrences stores at least one string, and
/// every stored string carries the root prefix.
proof fn lemma_nonempty_stores(t: WaveletTrie) -> (w: Seq<bool>)
    requires
        t_wf(t),
        t_len(t) > 0,
    ensures
        stores(t, w),
        is_prefix(bits(t.prefix), w),
    decreases t,
{
    let p = bits(t.prefix);
    match (t.left, t.right) {
        (Some(l), Some(r)) => {
            lemma_rank_partition(bits(t.positions), t_len(t) as int);
            if t_len(*l) > 0 {
                let wl = lemma_nonempty_stores(*l);
                let w = p + seq![false] + wl;
                assert(w[p.len() as int] == false);
                assert(w.skip(p.len() as int + 1) =~= wl);
                assert(is_strict_prefix(p, w));
                assert(stores(t, w));
                w
            } else {
                let wr = lemma_nonempty_stores(*r);
                let w = p + seq![true] + wr;
                assert(w[p.len() as int] == true);
                assert(w.skip(p.len() as int + 1) =~= wr);
                assert(is_strict_prefix(p, w));
                assert(stores(t, w));
                w
            }
        },
        _ => {
            p
        },
    }
}

/// Law: the converse of `lemma_prefix_conflict` — behind every refusal
/// stands a stored string that the refused one is a strict prefix of, or
/// strictly extends.
pub proof fn lemma_conflict_has_witness(t: WaveletTrie, s: Seq<bool>) -> (w: Seq<bool>)
    requires
        t_wf(t),
        conflict_spec(t, s),
    ensures
        stores(t, w),
        is_strict_prefix(s, w) || is_strict_prefix(w, s),
    decreases t,
{
    let p = bits(t.prefix);
    if s == p {
        let w = lemma_nonempty_stores(t);
        assert(is_strict_prefix(s, w));
        w
    } else if is_strict_prefix(s, p) {
        let w = lemma_nonempty_stores(t);
        lemma_prefix_trans(s, p, w);
        assert(is_strict_prefix(s, w));
        w
    } else {
        match (t.left, t.right) {
            (Some(l), Some(r)) => {
                let b = s[p.len() as int];
                let sufs = s.skip(p.len() as int + 1);
                let wc = if b {
                    lemma_conflict_has_witness(*r, sufs)
                } else {
                    lemma_conflict_has_witness(*l, sufs)
                };
                let w = p + seq![b] + wc;
                assert(w[p.len() as int] == b);
                assert(w.skip(p.len() as int + 1) =~= wc);
                assert(is_strict_prefix(p, w));
                assert(stores(t, w));
                lemma_prefix_split(p, s);
                if is_strict_prefix(sufs, wc) {
                    lemma_skip_strict_prefix(s, w, p.len() as int);
                    assert(is_strict_prefix(s, w));
                } else {
                    lemma_skip_strict_prefix(w, s, p.len() as int);
                    assert(is_strict_prefix(w, s));
                }
                w
            },
            _ => {
                assert(stores(t, p));
                assert(is_strict_prefix(p, s));
                p
            },
        }
    }
}

/// Law: a rank query for a stored string never answers not-found,
/// whatever window of occurrences it is asked about.
pub proof fn lemma_stored_rank_found(t: WaveletTrie, s: Seq<bool>, index: int)
    requires
        t_wf(t),
        stores(t, s),
    ensures
        rank_spec(t, s, index) is Some,
    decreases t,
{
    let p = bits(t.prefix);
    match (t.left, t.right) {
        (Some(l), Some(r)) => {
            let b = s[p.len() as int];
            let suffix = s.skip(p.len() as int + 1);
            if s.len() != 0 && s != p && !(s.len() < p.len()) {
                if b {
                    lemma_stored_rank_found(*r, suffix, bit_count(bits(t.positions), b, index));
                } else {
                    lemma_stored_rank_found(*l, suffix, bit_count(bits(t.positions), b, index));
                }
            }
        },
        _ => {},
    }
}

/// The value of the occurrence at bitmap position `j`: the node's prefix
/// and, at an internal node, the occurrence's routing bit followed by its
/// value in the matching child, at the child-local position the bitmap
/// assigns it.
pub closed spec fn occ_value(t: WaveletTrie, j: int) -> Seq<bool>
    decreases t,
{
    let p = bits(t.prefix);
    match (t.left, t.right) {
        (Some(l), Some(r)) => {
            let b = bits(t.positions)[j];
            if b {
                p + seq![b] + occ_value(*r, bit_count(bits(t.positions), true, j))
            } else {
                p + seq![b] + occ_value(*l, bit_count(bits(t.positions), false, j))
            }
        },
        _ => p,
    }
}

/// How many of the first `i` occurrences of `t` have exactly the value `s`.
pub closed spec fn match_count(t: WaveletTrie, s: Seq<bool>, i: int) -> int
    decreases i,
{
    if i <= 0 {
        0
    } else {
        match_count(t, s, i - 1) + if occ_value(t, i - 1) == s {
            1int
        } else {
            0int
        }
    }
}

/// A string that strictly extends `p` is `p`, then its bit right after
/// `p`, then the rest.
proof fn lemma_prefix_split(p: Seq<bool>, s: Seq<bool>)
    requires
        is_strict_prefix(p, s),
    ensures
        s == p + seq![s[p.len() as int]] + s.skip(p.len() as int + 1),
{
    assert(s =~= p + seq![s[p.len() as int]] + s.skip(p.len() as int + 1));
}

/// At an internal node, the occurrences valued `s` among the first `i`
/// are exactly the occurrences valued `s`'s tail among the first
/// `rank(b, i)` of the child that `s`'s routing bit `b` selects.
proof fn lemma_match_count_child(t: WaveletTrie, s: Seq<bool>, i: int)
    requires
        t.left is Some,
        t.right is Some,
        is_strict_prefix(bits(t.prefix), s),
        0 <= i,
    ensures
        match_count(t, s, i) == match_count(
            if s[bits(t.prefix).len() as int] {
                *t.right->Some_0
            } else {
                *t.left->Some_0
            },
            s.skip(bits(t.prefix).len() as int + 1),
            bit_count(bits(t.positions), s[bits(t.prefix).len() as int], i),
        ),
    decreases i,
{
    let p = bits(t.prefix);
    let b = s[p.len() as int];
    let tail = s.skip(p.len() as int + 1);
    let child = if b {
        *t.right->Some_0
    } else {
        *t.left->Some_0
    };
    if i > 0 {
        lemma_match_count_child(t, s, i - 1);
        let bj = bits(t.positions)[i - 1];
        let childj = if bj {
            *t.right->Some_0
        } else {
            *t.left->Some_0
        };
        let cj = bit_count(bits(t.positions), bj, i - 1);
        lemma_bit_count_bounds(bits(t.positions), bj, i - 1);
        lemma_prefix_split(p, s);
        assert(occ_value(t, i - 1) == p + seq![bj] + occ_value(childj, cj));
        assert(match_count(t, s, i) == match_count(t, s, i - 1) + (if occ_value(t, i - 1)
            == s {
            1int
        } else {
            0int
        }));
        if bj == b {
            // this occurrence matches exactly when the child's does
            assert(bit_count(bits(t.positions), b, i) == cj + 1);
            assert(match_count(child, tail, cj + 1) == match_count(child, tail, cj) + (
            if occ_value(child, cj) == tail {
                1int
            } else {
                0int
            }));
            if occ_value(t, i - 1) == s {
                lemma_concat_cancel(p, b, occ_value(child, cj), tail);
            }
            if occ_value(child, cj) == tail {
                assert(occ_value(t, i - 1) == s);
            }
            assert((occ_value(t, i - 1) == s) <==> (occ_value(child, cj) == tail));
        } else {
            // a differing routing bit rules the occurrence out
            assert(bit_count(bits(t.positions), b, i) == bit_count(bits(t.positions), b, i - 1));
            if occ_value(t, i - 1) == s {
                assert((p + seq![bj] + occ_value(childj, cj))[p.len() as int] == bj);
                assert((p + seq![b] + tail)[p.len() as int] == b);
                assert(false);
            }
            assert(match_count(t, s, i) == match_count(t, s, i - 1));
        }
    }
}

/// Appending different tails to one head gives different strings.
proof fn lemma_concat_cancel(p: Seq<bool>, b: bool, x: Seq<bool>, y: Seq<bool>)
    requires
        p + seq![b] + x == p + seq![b] + y,
    ensures
        x == y,
{
    assert((p + seq![b] + x).len() == p.len() + 1 + x.len());
    assert((p + seq![b] + y).len() == p.len() + 1 + y.len());
    assert(x.len() == y.len());
    assert forall|q: int| 0 <= q < x.len() implies x[q] == y[q] by {
        assert((p + seq![b] + x)[p.len() + 1 + q] == x[q]);
        assert((p + seq![b] + y)[p.len() + 1 + q] == y[q]);
    }
    assert(x =~= y);
}

/// In a leaf, every occurrence is valued by the prefix itself.
proof fn lemma_match_count_leaf(t: WaveletTrie, i: int)
    requires
        t.left is None,
        t.right is None,
        0 <= i,
    ensures
        match_count(t, bits(t.prefix), i) == i,
    decreases i,
{
    if i > 0 {
        lemma_match_count_leaf(t, i - 1);
    }
}

/// Law: for a stored string, a rank query over any window of occurrences
/// answers exactly how many of those occurrences hold that very string.
pub proof fn lemma_rank_counts_occurrences(t: WaveletTrie, s: Seq<bool>, i: int)
    requires
        t_wf(t),
        stores(t, s),
        0 <= i <= t_len(t),
    ensures
        rank_spec(t, s, i) == Some(match_count(t, s, i)),
    decreases t,
{
    let p = bits(t.prefix);
    match (t.left, t.right) {
        (Some(l), Some(r)) => {
            let b = s[p.len() as int];
            let tail = s.skip(p.len() as int + 1);
            let ni = bit_count(bits(t.positions), b, i);
            lemma_bit_count_mono(bits(t.positions), b, i, t_len(t) as int);
            lemma_bit_count_bounds(bits(t.positions), b, i);
            if b {
                lemma_rank_counts_occurrences(*r, tail, ni);
            } else {
                lemma_rank_counts_occurrences(*l, tail, ni);
            }
            lemma_match_count_child(t, s, i);
        },
        _ => {
            lemma_match_count_leaf(t, i);
        },
    }
}

/// No stored occurrence's value is a strict prefix of another's: the
/// structure invariant that insertion's conflict checking maintains.
pub open spec fn t_prefix_free(t: WaveletTrie) -> bool {
    forall|j: int, k: int|
        0 <= j < t_len(t) && 0 <= k < t_len(t) ==> !is_strict_prefix(
            #[trigger] occ_value(t, j),
            #[trigger] occ_value(t, k),
        )
}

/// Law: every occurrence's value is a stored string of the trie.
pub proof fn lemma_occ_value_stored(t: WaveletTrie, j: int)
    requires
        t_wf(t),
        0 <= j < t_len(t),
    ensures
        stores(t, occ_value(t, j)),
    decreases t,
{
    let p = bits(t.prefix);
    match (t.left, t.right) {
        (Some(l), Some(r)) => {
            let b = bits(t.positions)[j];
            let c = bit_count(bits(t.positions), b, j);
            lemma_bit_count_bounds(bits(t.positions), b, j);
            assert(bit_count(bits(t.positions), b, j + 1) == c + 1);
            lemma_bit_count_mono(bits(t.positions), b, j + 1, t_len(t) as int);
            let tail = if b {
                occ_value(*r, c)
            } else {
                occ_value(*l, c)
            };
            if b {
                lemma_occ_value_stored(*r, c);
            } else {
                lemma_occ_value_stored(*l, c);
            }
            let w = occ_value(t, j);
            assert(w == p + seq![b] + tail);
            assert(w[p.len() as int] == b);
            assert(w.skip(p.len() as int + 1) =~= tail);
            assert(is_strict_prefix(p, w));
            assert(stores(t, w));
        },
        _ => {},
    }
}

/// Law: inserting a non-conflicting string at a valid index keeps the
/// stored multiset prefix-free; the hypotheses are exactly what `insert`
/// ensures of an accepted call.
pub proof fn lemma_insert_keeps_prefix_free(
    t1: WaveletTrie,
    t2: WaveletTrie,
    s: Seq<bool>,
    index: int,
)
    requires
        t_wf(t1),
        t_prefix_free(t1),
        !conflict_spec(t1, s),
        0 <= index <= t_len(t1),
        t_len(t2) == t_len(t1) + 1,
        occ_value(t2, index) == s,
        forall|j: int| 0 <= j < index ==> occ_value(t2, j) == occ_value(t1, j),
        forall|j: int|
            index <= j < t_len(t1) ==> occ_value(t2, j + 1) == occ_value(t1, j),
    ensures
        t_prefix_free(t2),
{
    assert forall|j: int, k: int|
        0 <= j < t_len(t2) && 0 <= k < t_len(t2) implies !is_strict_prefix(
        #[trigger] occ_value(t2, j),
        #[trigger] occ_value(t2, k),
    ) by {
        if is_strict_prefix(occ_value(t2, j), occ_value(t2, k)) {
            let oj = if j < index {
                j
            } else {
                j - 1
            };
            let ok = if k < index {
                k
            } else {
                k - 1
            };
            if j == index {
                lemma_occ_value_stored(t1, ok);
                lemma_prefix_conflict(t1, occ_value(t1, ok), s);
            } else if k == index {
                lemma_occ_value_stored(t1, oj);
                lemma_prefix_conflict(t1, occ_value(t1, oj), s);
            } else {
                assert(occ_value(t2, j) == occ_value(t1, oj));
                assert(occ_value(t2, k) == occ_value(t1, ok));
                assert(!is_strict_prefix(occ_value(t1, oj), occ_value(t1, ok)));
            }
            assert(false);
        }
    }
}

/// Two nodes sharing bitmap and children assign each occurrence the same
/// value below their own prefixes.
proof fn lemma_occ_value_below(t1: WaveletTrie, t2: WaveletTrie, j: int)
    requires
        bits(t1.positions) == bits(t2.positions),
        t1.left == t2.left,
        t1.right == t2.right,
    ensures
        occ_value(t1, j) == bits(t1.prefix) + occ_value(t2, j).skip(
            bits(t2.prefix).len() as int,
        ),
{
    let p1 = bits(t1.prefix);
    let p2 = bits(t2.prefix);
    match (t1.left, t1.right) {
        (Some(l), Some(r)) => {
            let b = bits(t1.positions)[j];
            let c = bit_count(bits(t1.positions), b, j);
            let tail = if b {
                occ_value(*r, c)
            } else {
                occ_value(*l, c)
            };
            assert(occ_value(t1, j) == p1 + seq![b] + tail);
            assert(occ_value(t2, j) == p2 + seq![b] + tail);
            assert((p2 + seq![b] + tail).skip(p2.len() as int) =~= seq![b] + tail);
            assert(p1 + seq![b] + tail =~= p1 + (seq![b] + tail));
        },
        _ => {
            assert(occ_value(t1, j) == p1);
            assert(occ_value(t2, j) == p2);
            assert(p2.skip(p2.len() as int) =~= Seq::<bool>::empty());
            assert(p1 + Seq::<bool>::empty() =~= p1);
        },
    }
}

/// Law: around an occurrence holding the stored string `s` itself, a
/// rank query for `s` steps up by exactly one.
pub proof fn lemma_inserted_rank_delta(t: WaveletTrie, s: Seq<bool>, i: int)
    requires
        t_wf(t),
        stores(t, s),
        0 <= i < t_len(t),
        occ_value(t, i) == s,
    ensures
        rank_spec(t, s, i) == Some(match_count(t, s, i)),
        rank_spec(t, s, i + 1) == Some(match_count(t, s, i) + 1),
{
    lemma_rank_counts_occurrences(t, s, i);
    lemma_rank_counts_occurrences(t, s, i + 1);
}

/// How many of the first `i` occurrences have `s` as a prefix of their
/// value.
pub closed spec fn prefix_match_count(t: WaveletTrie, s: Seq<bool>, i: int) -> int
    decreases i,
{
    if i <= 0 {
        0
    } else {
        prefix_match_count(t, s, i - 1) + if is_prefix(s, occ_value(t, i - 1)) {
            1int
        } else {
            0int
        }
    }
}

/// Every occurrence's value starts with the node's prefix.
proof fn lemma_occ_has_prefix(t: WaveletTrie, j: int)
    ensures
        is_prefix(bits(t.prefix), occ_value(t, j)),
{
    lemma_occ_value_below(t, t, j);
}

/// A query that every occurrence extends matches the whole window.
proof fn lemma_prefix_match_all(t: WaveletTrie, s: Seq<bool>, i: int)
    requires
        0 <= i,
        forall|j: int| 0 <= j < i ==> is_prefix(s, #[trigger] occ_value(t, j)),
    ensures
        prefix_match_count(t, s, i) == i,
    decreases i,
{
    if i > 0 {
        lemma_prefix_match_all(t, s, i - 1);
    }
}

/// At an internal node, the occurrences extending `s` among the first `i`
/// are exactly the occurrences extending `s`'s tail among the first
/// `rank(b, i)` of the child that `s`'s routing bit `b` selects.
proof fn lemma_prefix_match_child(t: WaveletTrie, s: Seq<bool>, i: int)
    requires
        t.left is Some,
        t.right is Some,
        is_strict_prefix(bits(t.prefix), s),
        0 <= i,
    ensures
        prefix_match_count(t, s, i) == prefix_match_count(
            if s[bits(t.prefix).len() as int] {
                *t.right->Some_0
            } else {
                *t.left->Some_0
            },
            s.skip(bits(t.prefix).len() as int + 1),
            bit_count(bits(t.positions), s[bits(t.prefix).len() as int], i),
        ),
    decreases i,
{
    let p = bits(t.prefix);
    let b = s[p.len() as int];
    let tail = s.skip(p.len() as int + 1);
    let child = if b {
        *t.right->Some_0
    } else {
        *t.left->Some_0
    };
    if i > 0 {
        lemma_prefix_match_child(t, s, i - 1);
        let bj = bits(t.positions)[i - 1];
        let childj = if bj {
            *t.right->Some_0
        } else {
            *t.left->Some_0
        };
        let cj = bit_count(bits(t.positions), bj, i - 1);
        lemma_bit_count_bounds(bits(t.positions), bj, i - 1);
        lemma_prefix_split(p, s);
        let w = occ_value(t, i - 1);
        assert(w == p + seq![bj] + occ_value(childj, cj));
        if bj == b {
            assert(bit_count(bits(t.positions), b, i) == cj + 1);
            if is_prefix(s, w) {
                assert forall|q: int|
                    0 <= q < tail.len() implies #[trigger] tail[q] == occ_value(child, cj)[q] by {
                    assert(s[p.len() + 1 + q] == tail[q]);
                    assert(w[p.len() + 1 + q] == occ_value(child, cj)[q]);
                }
                assert(is_prefix(tail, occ_value(child, cj)));
            }
            if is_prefix(tail, occ_value(child, cj)) {
                assert forall|q: int| 0 <= q < s.len() implies #[trigger] s[q] == w[q] by {
                    if q > p.len() {
                        assert(s[q] == tail[q - p.len() - 1]);
                        assert(w[q] == occ_value(child, cj)[q - p.len() - 1]);
                    }
                }
                assert(is_prefix(s, w));
            }
            assert(is_prefix(s, w) <==> is_prefix(tail, occ_value(child, cj)));
        } else {
            assert(bit_count(bits(t.positions), b, i) == bit_count(bits(t.positions), b, i - 1));
            if is_prefix(s, w) {
                assert(s[p.len() as int] == w[p.len() as int]);
                assert(w[p.len() as int] == bj);
                assert(false);
            }
        }
    }
}

/// Law: for a query that at least one stored string extends, a rank
/// answer over any window counts exactly the occurrences whose values the
/// query is a prefix of.
pub proof fn lemma_rank_counts_prefix_matches(
    t: WaveletTrie,
    w: Seq<bool>,
    s: Seq<bool>,
    i: int,
)
    requires
        t_wf(t),
        stores(t, w),
        is_prefix(s, w),
        0 <= i <= t_len(t),
    ensures
        rank_spec(t, s, i) == Some(prefix_match_count(t, s, i)),
    decreases t,
{
    let p = bits(t.prefix);
    match (t.left, t.right) {
        (Some(l), Some(r)) => {
            let bw = w[p.len() as int];
            let sufw = w.skip(p.len() as int + 1);
            if s.len() == 0 || s == p || s.len() < p.len() {
                assert(is_prefix(s, p));
                assert forall|j: int| 0 <= j < i implies is_prefix(
                    s,
                    #[trigger] occ_value(t, j),
                ) by {
                    lemma_occ_has_prefix(t, j);
                    lemma_prefix_trans(s, p, occ_value(t, j));
                }
                lemma_prefix_match_all(t, s, i);
            } else {
                assert(is_prefix(p, s));
                if s.len() == p.len() {
                    assert(s =~= p);
                }
                let b = s[p.len() as int];
                let tail = s.skip(p.len() as int + 1);
                assert(b == bw);
                assert forall|q: int| 0 <= q < tail.len() implies #[trigger] tail[q]
                    == sufw[q] by {
                    assert(s[p.len() + 1 + q] == tail[q]);
                    assert(w[p.len() + 1 + q] == sufw[q]);
                }
                assert(is_prefix(tail, sufw));
                let ni = bit_count(bits(t.positions), b, i);
                lemma_bit_count_mono(bits(t.positions), b, i, t_len(t) as int);
                lemma_bit_count_bounds(bits(t.positions), b, i);
                if b {
                    lemma_rank_counts_prefix_matches(*r, sufw, tail, ni);
                } else {
                    lemma_rank_counts_prefix_matches(*l, sufw, tail, ni);
                }
                lemma_prefix_match_child(t, s, i);
            }
        },
        _ => {
            assert(w == p);
            assert(is_prefix(s, p));
            assert forall|j: int| 0 <= j < i implies is_prefix(
                s,
                #[trigger] occ_value(t, j),
            ) by {
                assert(occ_value(t, j) == p);
            }
            lemma_prefix_match_all(t, s, i);
            if s.len() == p.len() && s != p {
                assert(s =~= p);
            }
        },
    }
}

/// The combined bit length of a batch of strings.
pub closed spec fn total_bits(ss: Seq<BitVecWrap>) -> nat
    decreases ss.len(),
{
    if ss.len() == 0 {
        0
    } else {
        total_bits(ss.drop_last()) + bits(ss.last()).len()
    }
}

/// No string of the batch is a strict prefix of another (duplicates are
/// allowed).
pub open spec fn prefix_free(ss: Seq<BitVecWrap>) -> bool {
    forall|i: int, j: int|
        0 <= i < ss.len() && 0 <= j < ss.len() ==> !is_strict_prefix(
            bits(ss[i]),
            bits(ss[j]),
        )
}

proof fn lemma_total_bits_push(ss: Seq<BitVecWrap>, v: BitVecWrap)
    ensures
        total_bits(ss.push(v)) == total_bits(ss) + bits(v).len(),
{
    assert(ss.push(v).drop_last() =~= ss);
    assert(ss.push(v).last() == v);
}

impl WaveletTrie {
    /// An empty trie: no prefix, no children, no occurrences.
    pub fn new() -> (r: Self)
        ensures
            t_wf(r),
            t_len(r) == 0,
    {
        WaveletTrie {
            left: None,
            right: None,
            prefix: BitVecWrap::new(),
            positions: BitVecWrap::new(),
        }
    }

    /// The number of occurrences stored in this trie.
    pub fn len(&self) -> (r: usize)
        ensures
            r == t_len(*self),
    {
        self.positions.len()
    }

    /// Builds a trie holding the given batch of pairwise prefix-free
    /// strings, each at its position in the batch.
    pub fn from_sequences(sequences: &[BitVecWrap]) -> (r: Self)
        requires
            prefix_free(sequences@),
        ensures
            t_wf(r),
            t_len(r) == sequences@.len(),
            forall|j: int|
                0 <= j < sequences@.len() ==> occ_value(r, j) == bits(sequences@[j]),
            t_prefix_free(r),
    {
        let mut wavelet_trie = WaveletTrie::new();
        let n = sequences.len();
        let mut seqs: Vec<BitVecWrap> = Vec::new();
        let mut i: usize = 0;
        while i < n
            invariant
                i <= n,
                n == sequences@.len(),
                seqs@.len() == i,
                forall|k: int| 0 <= k < i ==> bits(#[trigger] seqs@[k]) == bits(sequences@[k]),
            decreases n - i,
        {
            let s = vstd::slice::slice_index_get(sequences, i);
            seqs.push(s.copy());
            i = i + 1;
        }
        proof {
            assert forall|a: int, b: int|
                0 <= a < seqs@.len() && 0 <= b < seqs@.len() implies !is_strict_prefix(
                bits(seqs@[a]),
                bits(seqs@[b]),
            ) by {
                assert(!is_strict_prefix(bits(sequences@[a]), bits(sequences@[b])));
            }
        }
        wavelet_trie.insert_static(&seqs);
        proof {
            assert forall|j: int| 0 <= j < sequences@.len() implies occ_value(wavelet_trie, j)
                == bits(sequences@[j]) by {
                assert(occ_value(wavelet_trie, j) == bits(seqs@[j]));
            }
            assert forall|j: int, k: int|
                0 <= j < t_len(wavelet_trie) && 0 <= k < t_len(wavelet_trie)
                implies !is_strict_prefix(
                #[trigger] occ_value(wavelet_trie, j),
                #[trigger] occ_value(wavelet_trie, k),
            ) by {
                assert(occ_value(wavelet_trie, j) == bits(sequences@[j]));
                assert(occ_value(wavelet_trie, k) == bits(sequences@[k]));
                assert(!is_strict_prefix(bits(sequences@[j]), bits(sequences@[k])));
            }
        }
        wavelet_trie
    }

    /// Fills this empty trie with a batch of pairwise prefix-free strings:
    /// when all strings are equal the node becomes a leaf counting them;
    /// otherwise their common prefix is factored out once, the strings are
    /// partitioned by the bit on which they diverge, and the two halves are
    /// built recursively.
    #[verifier::rlimit(100)]
    fn insert_static(&mut self, sequences: &Vec<BitVecWrap>)
        requires
            t_wf(*old(self)),
            t_len(*old(self)) == 0,
            prefix_free(sequences@),
        ensures
            t_wf(*final (self)),
            t_len(*final (self)) == sequences@.len(),
            forall|j: int|
                0 <= j < sequences@.len() ==> occ_value(*final (self), j) == bits(
                    sequences@[j],
                ),
        decreases total_bits(sequences@),
    {
        let ghost ss = sequences@;
        let n = sequences.len();
        if n == 0 {
            return ;
        }
        // Is every string in the batch the same as the first?
        let mut all_equal = true;
        let mut i: usize = 1;
        while i < n
            invariant
                1 <= i <= n,
                n == ss.len(),
                ss == sequences@,
                all_equal <==> (forall|k: int| 0 <= k < i ==> bits(#[trigger] ss[k]) == bits(ss[0])),
            decreases n - i,
        {
            let si = &sequences[i];
            let s0 = &sequences[0];
            if !si.eq(s0) {
                all_equal = false;
            }
            i = i + 1;
        }
        if all_equal {
            let first = &sequences[0];
            self.prefix = first.copy();
            self.positions = BitVecWrap::from_elem(n, false);
            proof {
                assert forall|j: int| 0 <= j < n implies occ_value(*self, j) == bits(
                    ss[j],
                ) by {
                    assert(bits(ss[j]) == bits(ss[0]));
                    assert(occ_value(*self, j) == bits(self.prefix));
                }
            }
            return ;
        }
        // The shared prefix of the whole batch.
        let mut lcp = {
            let first = &sequences[0];
            first.copy()
        };
        let mut i: usize = 0;
        while i < n
            invariant
                i <= n,
                n == ss.len(),
                ss == sequences@,
                is_prefix(bits(lcp), bits(ss[0])),
                forall|k: int| 0 <= k < i ==> is_prefix(bits(lcp), bits(ss[k])),
            decreases n - i,
        {
            let si = &sequences[i];
            let next = lcp.longest_common_prefix(si);
            proof {
                assert(is_prefix(bits(next), bits(lcp)));
                assert(is_prefix(bits(next), bits(ss[i as int])));
                assert forall|k: int| 0 <= k < i implies is_prefix(bits(next), bits(ss[k])) by {
                    lemma_prefix_trans(bits(next), bits(lcp), bits(ss[k]));
                }
                lemma_prefix_trans(bits(next), bits(lcp), bits(ss[0]));
            }
            lcp = next;
            i = i + 1;
        }
        // Every string runs past the shared prefix: one equal to it would be
        // a strict prefix of any string differing from it.
        proof {
            assert forall|k: int| 0 <= k < n implies bits(ss[k]).len() > bits(lcp).len() by {
                if bits(ss[k]).len() <= bits(lcp).len() {
                    assert(bits(ss[k]) =~= bits(lcp));
                    let m = choose|m: int| 0 <= m < n && bits(#[trigger] ss[m]) != bits(ss[0]);
                    let j = if bits(ss[k]) == bits(ss[0]) {
                        m
                    } else {
                        0int
                    };
                    assert(bits(ss[j]) != bits(ss[k]));
                    assert(is_prefix(bits(ss[k]), bits(ss[j])));
                    if bits(ss[k]).len() == bits(ss[j]).len() {
                        assert(bits(ss[k]) =~= bits(ss[j]));
                    }
                    assert(is_strict_prefix(bits(ss[k]), bits(ss[j])));
                    assert(false);
                }
            }
        }
        let lcp_len = lcp.len();
        // Partition the batch by the first bit past the shared prefix,
        // recording that bit for each string in order.
        let mut left_sequences: Vec<BitVecWrap> = Vec::new();
        let mut right_sequences: Vec<BitVecWrap> = Vec::new();
        let ghost mut src_left: Seq<int> = Seq::empty();
        let ghost mut src_right: Seq<int> = Seq::empty();
        let mut i: usize = 0;
        while i < n
            invariant
                i <= n,
                n == ss.len(),
                ss == sequences@,
                lcp_len == bits(lcp).len(),
                forall|k: int| 0 <= k < n ==> is_prefix(bits(lcp), bits(ss[k])),
                forall|k: int| 0 <= k < n ==> bits(ss[k]).len() > lcp_len,
                bits(self.positions).len() == i,
                forall|k: int|
                    0 <= k < i ==> bits(self.positions)[k] == bits(ss[k])[lcp_len as int],
                bit_count(bits(self.positions), false, i as int) == left_sequences@.len(),
                bit_count(bits(self.positions), true, i as int) == right_sequences@.len(),
                src_left.len() == left_sequences@.len(),
                src_right.len() == right_sequences@.len(),
                forall|k: int|
                    0 <= k < src_left.len() ==> 0 <= #[trigger] src_left[k] < i && bits(
                        ss[src_left[k]],
                    )[lcp_len as int] == false && bits(left_sequences@[k]) == bits(
                        ss[src_left[k]],
                    ).skip(lcp_len as int + 1),
                forall|k: int|
                    0 <= k < src_right.len() ==> 0 <= #[trigger] src_right[k] < i && bits(
                        ss[src_right[k]],
                    )[lcp_len as int] == true && bits(right_sequences@[k]) == bits(
                        ss[src_right[k]],
                    ).skip(lcp_len as int + 1),
                forall|k: int|
                    0 <= k < i && (#[trigger] bits(self.positions)[k]) == false ==> bits(
                        left_sequences@[bit_count(bits(self.positions), false, k)],
                    ) == bits(ss[k]).skip(lcp_len as int + 1),
                forall|k: int|
                    0 <= k < i && (#[trigger] bits(self.positions)[k]) == true ==> bits(
                        right_sequences@[bit_count(bits(self.positions), true, k)],
                    ) == bits(ss[k]).skip(lcp_len as int + 1),
                total_bits(left_sequences@) + total_bits(right_sequences@) + i <= total_bits(
                    ss.take(i as int),
                ),
            decreases n - i,
        {
            let si = &sequences[i];
            let (bit, suffix) = si.different_suffix(lcp_len);
            let ghost p0 = bits(self.positions);
            let ghost lv0 = left_sequences@;
            let ghost rv0 = right_sequences@;
            self.positions.push(bit);
            proof {
                lemma_bit_count_push(p0, bit, false);
                lemma_bit_count_push(p0, bit, true);
                assert(ss.take(i + 1).drop_last() =~= ss.take(i as int));
                assert(ss.take(i + 1).last() == ss[i as int]);
            }
            if bit {
                proof {
                    lemma_total_bits_push(right_sequences@, suffix);
                    src_right = src_right.push(i as int);
                }
                right_sequences.push(suffix);
            } else {
                proof {
                    lemma_total_bits_push(left_sequences@, suffix);
                    src_left = src_left.push(i as int);
                }
                left_sequences.push(suffix);
            }
            proof {
                assert forall|k: int|
                    0 <= k < i + 1 && (#[trigger] bits(self.positions)[k]) == false implies bits(
                    left_sequences@[bit_count(bits(self.positions), false, k)],
                ) == bits(ss[k]).skip(lcp_len as int + 1) by {
                    let pos1 = bits(self.positions);
                    lemma_bit_count_agree(pos1, p0, false, k);
                    let idx = bit_count(p0, false, k);
                    lemma_bit_count_bounds(p0, false, k);
                    if bit {
                        assert(left_sequences@ == lv0);
                    } else {
                        assert(left_sequences@ == lv0.push(suffix));
                    }
                    if k < i {
                        assert(pos1[k] == p0[k]);
                        assert(bits(lv0[idx]) == bits(ss[k]).skip(lcp_len as int + 1));
                        assert(bit_count(p0, false, k + 1) == idx + 1);
                        lemma_bit_count_mono(p0, false, k + 1, i as int);
                        assert(idx < lv0.len());
                        assert(left_sequences@[idx] == lv0[idx]);
                    } else {
                        assert(pos1[i as int] == bit);
                        assert(!bit);
                        assert(idx == lv0.len());
                        assert(left_sequences@[idx] == suffix);
                    }
                }
                assert forall|k: int|
                    0 <= k < i + 1 && (#[trigger] bits(self.positions)[k]) == true implies bits(
                    right_sequences@[bit_count(bits(self.positions), true, k)],
                ) == bits(ss[k]).skip(lcp_len as int + 1) by {
                    let pos1 = bits(self.positions);
                    lemma_bit_count_agree(pos1, p0, true, k);
                    let idx = bit_count(p0, true, k);
                    lemma_bit_count_bounds(p0, true, k);
                    if bit {
                        assert(right_sequences@ == rv0.push(suffix));
                    } else {
                        assert(right_sequences@ == rv0);
                    }
                    if k < i {
                        assert(pos1[k] == p0[k]);
                        assert(bits(rv0[idx]) == bits(ss[k]).skip(lcp_len as int + 1));
                        assert(bit_count(p0, true, k + 1) == idx + 1);
                        lemma_bit_count_mono(p0, true, k + 1, i as int);
                        assert(idx < rv0.len());
                        assert(right_sequences@[idx] == rv0[idx]);
                    } else {
                        assert(pos1[i as int] == bit);
                        assert(bit);
                        assert(idx == rv0.len());
                        assert(right_sequences@[idx] == suffix);
                    }
                }
            }
            i = i + 1;
        }
        proof {
            assert(ss.take(n as int) =~= ss);
            // Each half is itself prefix-free: a strict-prefix pair of
            // suffixes would lift to a strict-prefix pair in the batch.
            assert forall|a: int, b: int|
                0 <= a < left_sequences@.len() && 0 <= b < left_sequences@.len()
                implies !is_strict_prefix(
                bits(left_sequences@[a]),
                bits(left_sequences@[b]),
            ) by {
                let ka = src_left[a];
                let kb = src_left[b];
                if is_strict_prefix(bits(left_sequences@[a]), bits(left_sequences@[b])) {
                    lemma_skip_strict_prefix(
                        bits(ss[ka]),
                        bits(ss[kb]),
                        lcp_len as int,
                    );
                }
            }
            assert forall|a: int, b: int|
                0 <= a < right_sequences@.len() && 0 <= b < right_sequences@.len()
                implies !is_strict_prefix(
                bits(right_sequences@[a]),
                bits(right_sequences@[b]),
            ) by {
                let ka = src_right[a];
                let kb = src_right[b];
                if is_strict_prefix(bits(right_sequences@[a]), bits(right_sequences@[b])) {
                    lemma_skip_strict_prefix(
                        bits(ss[ka]),
                        bits(ss[kb]),
                        lcp_len as int,
                    );
                }
            }
        }
        let mut left_child = WaveletTrie::new();
        let mut right_child = WaveletTrie::new();
        left_child.insert_static(&left_sequences);
        right_child.insert_static(&right_sequences);
        self.left = Some(Box::new(left_child));
        self.right = Some(Box::new(right_child));
        self.prefix = lcp;
        proof {
            assert(t_wf(*self));
            assert forall|j: int| 0 <= j < n implies occ_value(*self, j) == bits(ss[j]) by {
                let pos = bits(self.positions);
                let b = pos[j];
                let cj = bit_count(pos, b, j);
                assert(b == bits(ss[j])[lcp_len as int]);
                lemma_bit_count_bounds(pos, b, j);
                assert(bit_count(pos, b, j + 1) == cj + 1);
                lemma_bit_count_mono(pos, b, j + 1, n as int);
                if b {
                    assert(cj < right_sequences@.len());
                    assert(bits(right_sequences@[cj]) == bits(ss[j]).skip(lcp_len as int + 1));
                    assert(occ_value(*self.right->Some_0, cj) == bits(right_sequences@[cj]));
                } else {
                    assert(cj < left_sequences@.len());
                    assert(bits(left_sequences@[cj]) == bits(ss[j]).skip(lcp_len as int + 1));
                    assert(occ_value(*self.left->Some_0, cj) == bits(left_sequences@[cj]));
                }
                assert(is_strict_prefix(bits(lcp), bits(ss[j])));
                lemma_prefix_split(bits(lcp), bits(ss[j]));
                assert(occ_value(*self, j) == bits(ss[j]));
            }
        }
    }

    /// Inserts `sequence` as the occurrence with ordinal `index` among the
    /// occurrences recorded at this node. Refused, with the trie unchanged,
    /// when storing the string would break the prefix-free invariant.
    #[verifier::rlimit(100)]
    pub fn insert(&mut self, sequence: &BitVecWrap, index: usize) -> (r: Result<
        (),
        TrieError,
    >)
        requires
            t_wf(*old(self)),
            index <= t_len(*old(self)),
            t_len(*old(self)) < usize::MAX,
        ensures
            t_wf(*final (self)),
            r is Ok <==> !conflict_spec(*old(self), bits(*sequence)),
            r is Ok ==> t_len(*final (self)) == t_len(*old(self)) + 1,
            r is Ok ==> stores(*final (self), bits(*sequence)),
            r is Ok ==> occ_value(*final (self), index as int) == bits(*sequence),
            r is Ok ==> forall|j: int|
                0 <= j < index ==> occ_value(*final (self), j) == occ_value(*old(self), j),
            r is Ok ==> forall|j: int|
                index <= j < t_len(*old(self)) ==> occ_value(*final (self), j + 1)
                    == occ_value(*old(self), j),
            r is Err ==> *final (self) == *old(self),
            r matches Err(e) ==> e == TrieError::PrefixConflict,
        decreases *old(self), 1int,
    {
        if self.positions.is_empty() {
            self.prefix = sequence.copy();
            self.positions.push(false);
            proof {
                assert(stores(*self, bits(*sequence)));
                assert(occ_value(*self, 0) == bits(*sequence));
            }
            Ok(())
        } else if self.prefix.eq(sequence) {
            if self.left.is_none() {
                let ghost p0 = bits(self.positions);
                self.positions.insert(index, false);
                proof {
                    p0.insert_ensures(index as int, false);
                    assert forall|i: int| 0 <= i < bits(self.positions).len() implies !#[trigger] bits(
                        self.positions,
                    )[i] by {
                        if i < index {
                        } else if i == index {
                        } else {
                            assert(bits(self.positions)[i] == p0[i - 1]);
                        }
                    }
                    assert(stores(*self, bits(*sequence)));
                    assert(occ_value(*self, index as int) == bits(*sequence));
                    assert forall|j: int| 0 <= j < index implies occ_value(*self, j)
                        == occ_value(*old(self), j) by {
                        assert(occ_value(*self, j) == bits(self.prefix));
                        assert(occ_value(*old(self), j) == bits(old(self).prefix));
                    }
                    assert forall|j: int| index <= j < t_len(*old(self)) implies occ_value(
                        *self,
                        j + 1,
                    ) == occ_value(*old(self), j) by {
                        assert(occ_value(*self, j + 1) == bits(self.prefix));
                        assert(occ_value(*old(self), j) == bits(old(self).prefix));
                    }
                }
                Ok(())
            } else {
                Err(TrieError::PrefixConflict)
            }
        } else if sequence.is_prefix_of(&self.prefix) {
            proof {
                if bits(*sequence).len() == bits(self.prefix).len() {
                    assert(bits(*sequence) =~= bits(self.prefix));
                }
            }
            Err(TrieError::PrefixConflict)
        } else if self.prefix.is_prefix_of(sequence) {
            proof {
                if bits(*sequence).len() == bits(self.prefix).len() {
                    assert(bits(*sequence) =~= bits(self.prefix));
                }
            }
            if self.left.is_none() {
                Err(TrieError::PrefixConflict)
            } else {
                self.insert_to_child(sequence, index)
            }
        } else {
            // Split: neither string is a prefix of the other, so they
            // diverge strictly before either ends.
            let lcp = sequence.longest_common_prefix(&self.prefix);
            proof {
                let s = bits(*sequence);
                let p = bits(self.prefix);
                let k = bits(lcp).len() as int;
                if k == s.len() {
                    assert(is_prefix(s, p));
                }
                if k == p.len() {
                    assert(is_prefix(p, s));
                }
                assert(k < s.len() && k < p.len() && s[k] != p[k]);
            }
            let lcp_len = lcp.len();
            let pos_len = self.positions.len();
            let (bit_self, suffix_self) = self.prefix.different_suffix(lcp_len);
            let (bit_seq, suffix_seq) = sequence.different_suffix(lcp_len);
            let original_left = self.left.take();
            let original_right = self.right.take();
            let original_positions = self.positions.copy();
            let original_node = WaveletTrie {
                left: original_left,
                right: original_right,
                prefix: suffix_self,
                positions: original_positions,
            };
            let new_leaf = WaveletTrie {
                left: None,
                right: None,
                prefix: suffix_seq,
                positions: BitVecWrap::from_elem(1, false),
            };
            proof {
                assert(t_wf(original_node));
                assert(t_wf(new_leaf));
            }
            if !bit_self {
                self.left = Some(Box::new(original_node));
                self.right = Some(Box::new(new_leaf));
            } else {
                self.left = Some(Box::new(new_leaf));
                self.right = Some(Box::new(original_node));
            }
            self.prefix = lcp;
            self.positions = BitVecWrap::from_elem(pos_len, bit_self);
            let ghost p1 = bits(self.positions);
            self.positions.insert(index, bit_seq);
            proof {
                lemma_bit_count_const(p1, bit_self, false, pos_len as int);
                lemma_bit_count_const(p1, bit_self, true, pos_len as int);
                lemma_bit_count_insert(p1, index as int, bit_seq, false);
                lemma_bit_count_insert(p1, index as int, bit_seq, true);
                lemma_bit_count_const(Seq::<bool>::new(1, |i: int| false), false, false, 1);
                lemma_bit_count_const(Seq::<bool>::new(1, |i: int| false), false, true, 1);
                assert(stores(new_leaf, bits(*sequence).skip(lcp_len as int + 1)));
                assert(stores(*self, bits(*sequence)));
                p1.insert_ensures(index as int, bit_seq);
                lemma_bit_count_agree(bits(self.positions), p1, bit_seq, index as int);
                lemma_bit_count_const(p1, bit_self, bit_seq, index as int);
                assert(is_strict_prefix(bits(lcp), bits(*sequence)));
                lemma_prefix_split(bits(lcp), bits(*sequence));
                assert(occ_value(new_leaf, 0) == bits(*sequence).skip(lcp_len as int + 1));
                assert(occ_value(*self, index as int) == bits(*sequence));
                assert(is_strict_prefix(bits(lcp), bits(old(self).prefix)));
                lemma_prefix_split(bits(lcp), bits(old(self).prefix));
                assert forall|j: int| 0 <= j < index implies occ_value(*self, j)
                    == occ_value(*old(self), j) by {
                    assert(bits(self.positions)[j] == bit_self);
                    lemma_bit_count_agree(bits(self.positions), p1, bit_self, j);
                    lemma_bit_count_const(p1, bit_self, bit_self, j);
                    lemma_occ_value_below(*old(self), original_node, j);
                    lemma_occ_value_below(original_node, original_node, j);
                    assert(occ_value(*self, j) == bits(lcp) + seq![bit_self] + occ_value(
                        original_node,
                        j,
                    ));
                    assert(occ_value(*self, j) =~= occ_value(*old(self), j));
                }
                assert forall|j: int| index <= j < t_len(*old(self)) implies occ_value(
                    *self,
                    j + 1,
                ) == occ_value(*old(self), j) by {
                    assert(bits(self.positions)[j + 1] == bit_self);
                    lemma_bit_count_insert_window(p1, index as int, bit_seq, bit_self, j);
                    lemma_bit_count_const(p1, bit_self, bit_self, j);
                    lemma_occ_value_below(*old(self), original_node, j);
                    lemma_occ_value_below(original_node, original_node, j);
                    assert(occ_value(*self, j + 1) == bits(lcp) + seq![bit_self] + occ_value(
                        original_node,
                        j,
                    ));
                    assert(occ_value(*self, j + 1) =~= occ_value(*old(self), j));
                }
            }
            Ok(())
        }
    }

    /// Routes `sequence`, which strictly extends this internal node's
    /// prefix, into the matching child, translating `index` through the
    /// bitmap; the routing bit enters the bitmap only once the child has
    /// accepted, so a refusal leaves the node unchanged.
    fn insert_to_child(&mut self, sequence: &BitVecWrap, index: usize) -> (r: Result<
        (),
        TrieError,
    >)
        requires
            t_wf(*old(self)),
            old(self).left is Some,
            old(self).right is Some,
            index <= t_len(*old(self)),
            t_len(*old(self)) < usize::MAX,
            is_strict_prefix(bits(old(self).prefix), bits(*sequence)),
        ensures
            t_wf(*final (self)),
            r is Ok <==> !conflict_spec(*old(self), bits(*sequence)),
            r is Ok ==> t_len(*final (self)) == t_len(*old(self)) + 1,
            r is Ok ==> stores(*final (self), bits(*sequence)),
            r is Ok ==> occ_value(*final (self), index as int) == bits(*sequence),
            r is Ok ==> forall|j: int|
                0 <= j < index ==> occ_value(*final (self), j) == occ_value(*old(self), j),
            r is Ok ==> forall|j: int|
                index <= j < t_len(*old(self)) ==> occ_value(*final (self), j + 1)
                    == occ_value(*old(self), j),
            r is Err ==> *final (self) == *old(self),
            r matches Err(e) ==> e == TrieError::PrefixConflict,
        decreases *old(self), 0int,
    {
        let plen = self.prefix.len();
        let (bit, suffix) = sequence.different_suffix(plen);
        let new_pos = self.positions.rank(bit, index);
        proof {
            lemma_bit_count_mono(bits(self.positions), bit, index as int, t_len(*self) as int);
            lemma_bit_count_bounds(bits(self.positions), bit, t_len(*self) as int);
        }
        let result: Result<(), TrieError> = if bit {
            match self.right.take() {
                Some(mut child) => {
                    let res = child.insert(&suffix, new_pos);
                    self.right = Some(child);
                    res
                },
                None => Err(TrieError::StructuralInvariantViolation),
            }
        } else {
            match self.left.take() {
                Some(mut child) => {
                    let res = child.insert(&suffix, new_pos);
                    self.left = Some(child);
                    res
                },
                None => Err(TrieError::StructuralInvariantViolation),
            }
        };
        match result {
            Ok(u) => {
                let ghost p0 = bits(self.positions);
                self.positions.insert(index, bit);
                proof {
                    lemma_bit_count_insert(p0, index as int, bit, false);
                    lemma_bit_count_insert(p0, index as int, bit, true);
                    p0.insert_ensures(index as int, bit);
                    lemma_bit_count_agree(bits(self.positions), p0, bit, index as int);
                    lemma_prefix_split(bits(self.prefix), bits(*sequence));
                    assert(occ_value(*self, index as int) == bits(*sequence));
                    assert forall|j: int| 0 <= j < index implies occ_value(*self, j)
                        == occ_value(*old(self), j) by {
                        let bj = p0[j];
                        let cj = bit_count(p0, bj, j);
                        assert(bits(self.positions)[j] == bj);
                        lemma_bit_count_agree(bits(self.positions), p0, bj, j);
                        lemma_bit_count_bounds(p0, bj, j);
                        if bj == bit {
                            assert(bit_count(p0, bit, j + 1) == cj + 1);
                            lemma_bit_count_mono(p0, bit, j + 1, index as int);
                            assert(cj < new_pos);
                            if bit {
                                assert(occ_value(*self.right->Some_0, cj) == occ_value(
                                    *old(self).right->Some_0,
                                    cj,
                                ));
                            } else {
                                assert(occ_value(*self.left->Some_0, cj) == occ_value(
                                    *old(self).left->Some_0,
                                    cj,
                                ));
                            }
                        } else {
                            if bit {
                                assert(self.left == old(self).left);
                            } else {
                                assert(self.right == old(self).right);
                            }
                        }
                        assert(occ_value(*self, j) == occ_value(*old(self), j));
                    }
                    assert forall|j: int| index <= j < t_len(*old(self)) implies occ_value(
                        *self,
                        j + 1,
                    ) == occ_value(*old(self), j) by {
                        let bj = p0[j];
                        let cj = bit_count(p0, bj, j);
                        assert(bits(self.positions)[j + 1] == bj);
                        lemma_bit_count_insert_window(p0, index as int, bit, bj, j);
                        lemma_bit_count_bounds(p0, bj, j);
                        if bj == bit {
                            lemma_bit_count_mono(p0, bit, index as int, j);
                            assert(bit_count(p0, bit, j + 1) == cj + 1);
                            lemma_bit_count_mono(p0, bit, j + 1, t_len(*old(self)) as int);
                            assert(new_pos <= cj < t_len(
                                if bit {
                                    *old(self).right->Some_0
                                } else {
                                    *old(self).left->Some_0
                                },
                            ));
                            if bit {
                                assert(occ_value(*self.right->Some_0, cj + 1) == occ_value(
                                    *old(self).right->Some_0,
                                    cj,
                                ));
                            } else {
                                assert(occ_value(*self.left->Some_0, cj + 1) == occ_value(
                                    *old(self).left->Some_0,
                                    cj,
                                ));
                            }
                        } else {
                            if bit {
                                assert(self.left == old(self).left);
                            } else {
                                assert(self.right == old(self).right);
                            }
                        }
                        assert(occ_value(*self, j + 1) == occ_value(*old(self), j));
                    }
                }
                Ok(u)
            },
            Err(e) => Err(e),
        }
    }

    /// Inserts `sequence` after every occurrence already stored.
    pub fn append(&mut self, sequence: &BitVecWrap) -> (r: Result<(), TrieError>)
        requires
            t_wf(*old(self)),
            t_len(*old(self)) < usize::MAX,
        ensures
            t_wf(*final (self)),
            r is Ok <==> !conflict_spec(*old(self), bits(*sequence)),
            r is Ok ==> t_len(*final (self)) == t_len(*old(self)) + 1,
            r is Ok ==> stores(*final (self), bits(*sequence)),
            r is Ok ==> occ_value(*final (self), t_len(*old(self)) as int) == bits(*sequence),
            r is Ok ==> forall|j: int|
                0 <= j < t_len(*old(self)) ==> occ_value(*final (self), j) == occ_value(
                    *old(self),
                    j,
                ),
            r is Err ==> *final (self) == *old(self),
            r matches Err(e) ==> e == TrieError::PrefixConflict,
    {
        let index = self.positions.len();
        self.insert(sequence, index)
    }

    /// How many of the first `index` occurrences at this node match
    /// `sequence`, or have it as a prefix; `None` when no stored string
    /// matches.
    pub fn rank(&self, sequence: &BitVecWrap, index: usize) -> (r: Option<usize>)
        requires
            t_wf(*self),
            index <= t_len(*self),
        ensures
            r matches Some(c) ==> rank_spec(*self, bits(*sequence), index as int) == Some(
                c as int,
            ),
            r is None ==> rank_spec(*self, bits(*sequence), index as int) is None,
        decreases *self,
    {
        if sequence.is_empty() || sequence.eq(&self.prefix) {
            Some(index)
        } else if sequence.len() < self.prefix.len() {
            match sequence.is_prefix_of(&self.prefix) {
                true => Some(index),
                false => None,
            }
        } else {
            match self.prefix.is_prefix_of(sequence) {
                true => {
                    proof {
                        if bits(*sequence).len() == bits(self.prefix).len() {
                            assert(bits(*sequence) =~= bits(self.prefix));
                        }
                        lemma_bit_count_bounds(
                            bits(self.positions),
                            bits(*sequence)[bits(self.prefix).len() as int],
                            index as int,
                        );
                    }
                    let plen = self.prefix.len();
                    let (bit, suffix) = sequence.different_suffix(plen);
                    let new_index = self.positions.rank(bit, index);
                    proof {
                        lemma_bit_count_mono(
                            bits(self.positions),
                            bit,
                            index as int,
                            t_len(*self) as int,
                        );
                    }
                    if bit {
                        match &self.right {
                            Some(trie) => trie.rank(&suffix, new_index),
                            None => Some(new_index),
                        }
                    } else {
                        match &self.left {
                            Some(trie) => trie.rank(&suffix, new_index),
                            None => Some(new_index),
                        }
                    }
                },
                false => None,
            }
        }
    }
}

} // verus!
