//! A growable bit sequence with rank/select and prefix primitives.
//!
//! The bits are held in a `bit_vec::BitVec`; the primitive operations
//! (construct, get, set, push, pop, extend, truncate, byte import/export,
//! whole-vector reductions) are relied upon, and everything else — the
//! shifting insert/delete, rank, select and the prefix relations — is
//! built and verified on top of them.

use vstd::prelude::*;

verus! {

/// The sequence of bits that a `BitVecWrap` holds, in order.
pub uninterp spec fn bits(v: BitVecWrap) -> Seq<bool>;

/// Count of occurrences of `b` among the first `pos` elements of `s`.
pub open spec fn bit_count(s: Seq<bool>, b: bool, pos: int) -> int
    decreases pos,
{
    if pos <= 0 {
        0
    } else {
        bit_count(s, b, pos - 1) + if s[pos - 1] == b {
            1int
        } else {
            0int
        }
    }
}

/// `p` equals the first `p.len()` elements of `v`.
pub open spec fn is_prefix(p: Seq<bool>, v: Seq<bool>) -> bool {
    p.len() <= v.len() && (forall|i: int| 0 <= i < p.len() ==> p[i] == v[i])
}

/// `p` is a prefix of `v` and shorter than `v`.
pub open spec fn is_strict_prefix(p: Seq<bool>, v: Seq<bool>) -> bool {
    is_prefix(p, v) && p.len() < v.len()
}

/// Bit `k` of `byte`, most significant bit first.
pub open spec fn byte_bit(byte: u8, k: int) -> bool {
    (byte >> ((7 - k) as u8)) & 1 == 1
}

/// Law: among the first `pos` bits of a vector, the zero-count and the
/// one-count always add up to `pos` itself.
pub proof fn lemma_rank_partition(s: Seq<bool>, pos: int)
    requires
        0 <= pos <= s.len(),
    ensures
        bit_count(s, false, pos) + bit_count(s, true, pos) == pos,
    decreases pos,
{
    if pos > 0 {
        lemma_rank_partition(s, pos - 1);
    }
}

/// A count over a window never exceeds the window's width.
pub proof fn lemma_bit_count_bounds(s: Seq<bool>, b: bool, pos: int)
    requires
        0 <= pos,
    ensures
        0 <= bit_count(s, b, pos) <= pos,
    decreases pos,
{
    if pos > 0 {
        lemma_bit_count_bounds(s, b, pos - 1);
    }
}

/// Widening the window never lowers the count.
pub proof fn lemma_bit_count_mono(s: Seq<bool>, b: bool, p1: int, p2: int)
    requires
        0 <= p1 <= p2,
    ensures
        bit_count(s, b, p1) <= bit_count(s, b, p2),
    decreases p2,
{
    if p1 < p2 {
        lemma_bit_count_mono(s, b, p1, p2 - 1);
    }
}

/// Counting ignores everything at or past the window's end.
pub proof fn lemma_bit_count_agree(s1: Seq<bool>, s2: Seq<bool>, b: bool, pos: int)
    requires
        0 <= pos,
        forall|i: int| 0 <= i < pos ==> s1[i] == s2[i],
    ensures
        bit_count(s1, b, pos) == bit_count(s2, b, pos),
    decreases pos,
{
    if pos > 0 {
        lemma_bit_count_agree(s1, s2, b, pos - 1);
    }
}

/// Appending one element changes the whole-sequence count by one when the
/// element matches, and not at all otherwise.
pub proof fn lemma_bit_count_push(s: Seq<bool>, b: bool, x: bool)
    ensures
        bit_count(s.push(b), x, s.len() as int + 1) == bit_count(s, x, s.len() as int) + if b == x {
            1int
        } else {
            0int
        },
{
    assert(s.push(b)[s.len() as int] == b);
    lemma_bit_count_agree(s.push(b), s, x, s.len() as int);
}

/// Counting over a concatenation splits into the two parts' counts.
pub proof fn lemma_bit_count_concat(a: Seq<bool>, c: Seq<bool>, x: bool)
    ensures
        bit_count(a + c, x, a.len() as int + c.len() as int) == bit_count(a, x, a.len() as int) + bit_count(
            c,
            x,
            c.len() as int,
        ),
    decreases c.len(),
{
    if c.len() == 0 {
        assert(a + c =~= a);
        lemma_bit_count_agree(a + c, a, x, a.len() as int);
    } else {
        let c1 = c.drop_last();
        lemma_bit_count_concat(a, c1, x);
        assert((a + c)[a.len() + c.len() - 1] == c[c.len() - 1]);
        lemma_bit_count_agree(a + c, a + c1, x, a.len() + c.len() - 1);
        lemma_bit_count_agree(c, c1, x, c.len() - 1);
    }
}

/// Inserting one element changes the whole-sequence count by one when the
/// element matches, and not at all otherwise.
pub proof fn lemma_bit_count_insert(s: Seq<bool>, i: int, b: bool, x: bool)
    requires
        0 <= i <= s.len(),
    ensures
        bit_count(s.insert(i, b), x, s.len() as int + 1) == bit_count(s, x, s.len() as int) + if b
            == x {
            1int
        } else {
            0int
        },
{
    let a = s.subrange(0, i);
    let c = s.subrange(i, s.len() as int);
    assert(s.insert(i, b) == a.push(b) + c);
    lemma_bit_count_concat(a.push(b), c, x);
    lemma_bit_count_push(a, b, x);
    assert(s =~= a + c);
    lemma_bit_count_concat(a, c, x);
}

/// A window that reaches past an insertion point widens by one and gains
/// exactly the inserted element's contribution.
pub proof fn lemma_bit_count_insert_window(s: Seq<bool>, i: int, b: bool, x: bool, w: int)
    requires
        0 <= i <= w <= s.len(),
    ensures
        bit_count(s.insert(i, b), x, w + 1) == bit_count(s, x, w) + if b == x {
            1int
        } else {
            0int
        },
    decreases w,
{
    s.insert_ensures(i, b);
    if w == i {
        lemma_bit_count_agree(s.insert(i, b), s, x, i);
        assert(s.insert(i, b)[i] == b);
    } else {
        lemma_bit_count_insert_window(s, i, b, x, w - 1);
        assert(s.insert(i, b)[w] == s[w - 1]);
    }
}

/// Being a prefix is transitive.
pub proof fn lemma_prefix_trans(a: Seq<bool>, b: Seq<bool>, c: Seq<bool>)
    requires
        is_prefix(a, b),
        is_prefix(b, c),
    ensures
        is_prefix(a, c),
{
}

/// Two strings that agree up to and including position `l`, whose tails
/// after `l` stand in the strict-prefix relation, stand in it themselves.
pub proof fn lemma_skip_strict_prefix(sa: Seq<bool>, sb: Seq<bool>, l: int)
    requires
        0 <= l < sa.len(),
        l < sb.len(),
        forall|q: int| 0 <= q <= l ==> sa[q] == sb[q],
        is_strict_prefix(sa.skip(l + 1), sb.skip(l + 1)),
    ensures
        is_strict_prefix(sa, sb),
{
    assert forall|q: int| 0 <= q < sa.len() implies sa[q] == sb[q] by {
        if q > l {
            assert(sa.skip(l + 1)[q - l - 1] == sa[q]);
            assert(sb.skip(l + 1)[q - l - 1] == sb[q]);
        }
    }
}

/// Over a window of one repeated element, the count is the full window or
/// nothing.
pub proof fn lemma_bit_count_const(s: Seq<bool>, b: bool, x: bool, pos: int)
    requires
        0 <= pos,
        forall|i: int| 0 <= i < pos ==> s[i] == b,
    ensures
        bit_count(s, x, pos) == if b == x {
            pos
        } else {
            0int
        },
    decreases pos,
{
    if pos > 0 {
        lemma_bit_count_const(s, b, x, pos - 1);
    }
}

/// A dynamic bit vector, wrapping `bit_vec::BitVec`.
#[verifier::external_body]
#[derive(Debug)]
pub struct BitVecWrap {
    bit_vec: bit_vec::BitVec,
}

impl BitVecWrap {
    /// Relies on `bit_vec::BitVec::new`: an empty bit vector.
    #[verifier::external_body]
    fn new_raw() -> (r: Self)
        ensures
            bits(r) == Seq::<bool>::empty(),
    {
        BitVecWrap { bit_vec: bit_vec::BitVec::new() }
    }

    /// Relies on `bit_vec::BitVec::from_elem`: `nbits` copies of `bit`.
    #[verifier::external_body]
    fn from_elem_raw(nbits: usize, bit: bool) -> (r: Self)
        ensures
            bits(r) == Seq::<bool>::new(nbits as nat, |i: int| bit),
    {
        BitVecWrap { bit_vec: bit_vec::BitVec::from_elem(nbits, bit) }
    }

    /// Relies on `bit_vec::BitVec::from_bytes`: each byte becomes eight
    /// bits, most significant bit first.
    #[verifier::external_body]
    fn from_bytes_raw(bytes: &[u8]) -> (r: Self)
        requires
            8 * bytes@.len() <= usize::MAX,
        ensures
            bits(r).len() == 8 * bytes@.len(),
            forall|i: int|
                0 <= i < bits(r).len() ==> #[trigger] bits(r)[i] == byte_bit(bytes@[i / 8], i % 8),
    {
        BitVecWrap { bit_vec: bit_vec::BitVec::from_bytes(bytes) }
    }

    /// Relies on `bit_vec::BitVec::len`: the number of stored bits.
    #[verifier::external_body]
    fn len_raw(&self) -> (r: usize)
        ensures
            r == bits(*self).len(),
    {
        self.bit_vec.len()
    }

    /// Relies on `bit_vec::BitVec::get`: the bit at `i`, or `None` past the end.
    #[verifier::external_body]
    fn get_raw(&self, i: usize) -> (r: Option<bool>)
        ensures
            r == if i < bits(*self).len() {
                Some(bits(*self)[i as int])
            } else {
                None::<bool>
            },
    {
        self.bit_vec.get(i)
    }

    /// Relies on `bit_vec::BitVec::set`: overwrites the bit at `i`;
    /// panics when `i` is out of bounds, so that is required away.
    #[verifier::external_body]
    fn set_raw(&mut self, i: usize, elem: bool)
        requires
            i < bits(*old(self)).len(),
        ensures
            bits(*final (self)) == bits(*old(self)).update(i as int, elem),
    {
        self.bit_vec.set(i, elem);
    }

    /// Relies on `bit_vec::BitVec::push`: appends one bit at the end;
    /// panics when the length would overflow `usize`.
    #[verifier::external_body]
    fn push_raw(&mut self, elem: bool)
        requires
            bits(*old(self)).len() < usize::MAX,
        ensures
            bits(*final (self)) == bits(*old(self)).push(elem),
    {
        self.bit_vec.push(elem);
    }

    /// Relies on `bit_vec::BitVec::pop`: removes and returns the last bit,
    /// or `None` when empty.
    #[verifier::external_body]
    fn pop_raw(&mut self) -> (r: Option<bool>)
        ensures
            bits(*old(self)).len() == 0 ==> r is None && bits(*final (self)) == bits(
                *old(self),
            ),
            bits(*old(self)).len() > 0 ==> r == Some(bits(*old(self)).last()) && bits(
                *final (self),
            ) == bits(*old(self)).drop_last(),
    {
        self.bit_vec.pop()
    }

    /// Relies on `bit_vec::BitVec::truncate`: keeps the first `len` bits;
    /// no effect when `len` is not smaller than the current length.
    #[verifier::external_body]
    fn truncate_raw(&mut self, len: usize)
        ensures
            len < bits(*old(self)).len() ==> bits(*final (self)) == bits(*old(self)).take(
                len as int,
            ),
            len >= bits(*old(self)).len() ==> bits(*final (self)) == bits(*old(self)),
    {
        self.bit_vec.truncate(len);
    }

    /// Relies on `bit_vec::BitVec::to_bytes`: packs the bits into bytes,
    /// most significant bit first, padding the tail with `false`.
    #[verifier::external_body]
    fn to_bytes_raw(&self) -> (r: Vec<u8>)
        ensures
            r@.len() == (bits(*self).len() + 7) / 8,
            forall|i: int|
                0 <= i < 8 * r@.len() ==> #[trigger] byte_bit(r@[i / 8], i % 8) == (if i < bits(
                    *self,
                ).len() {
                    bits(*self)[i]
                } else {
                    false
                }),
    {
        self.bit_vec.to_bytes()
    }

    /// Relies on `bit_vec::BitVec`'s `Extend` impl: pushes every bit of
    /// `other` after the bits of `self`, in order.
    #[verifier::external_body]
    fn append_raw(&mut self, other: BitVecWrap)
        requires
            bits(*old(self)).len() + bits(other).len() <= usize::MAX,
        ensures
            bits(*final (self)) == bits(*old(self)) + bits(other),
    {
        self.bit_vec.extend(other.bit_vec);
    }

    /// Relies on `bit_vec::BitVec::all`: true when every stored bit is 1
    /// (vacuously true when empty).
    #[verifier::external_body]
    fn all_raw(&self) -> (r: bool)
        ensures
            r <==> (forall|i: int| 0 <= i < bits(*self).len() ==> #[trigger] bits(*self)[i]),
    {
        self.bit_vec.all()
    }

    /// Relies on `bit_vec::BitVec::none`: true when every stored bit is 0
    /// (vacuously true when empty).
    #[verifier::external_body]
    fn none_raw(&self) -> (r: bool)
        ensures
            r <==> (forall|i: int| 0 <= i < bits(*self).len() ==> !#[trigger] bits(*self)[i]),
    {
        self.bit_vec.none()
    }

    /// Relies on `bit_vec::BitVec::set_all`: sets every bit to 1.
    #[verifier::external_body]
    fn set_all_raw(&mut self)
        ensures
            bits(*final (self)) == Seq::<bool>::new(bits(*old(self)).len(), |i: int| true),
    {
        self.bit_vec.set_all();
    }

    /// Relies on `bit_vec::BitVec::negate`: flips every bit.
    #[verifier::external_body]
    fn negate_raw(&mut self)
        ensures
            bits(*final (self)).len() == bits(*old(self)).len(),
            forall|i: int|
                0 <= i < bits(*old(self)).len() ==> #[trigger] bits(*final (self))[i] == !bits(
                    *old(self),
                )[i],
    {
        self.bit_vec.negate();
    }

    /// An empty bit vector.
    pub fn new() -> (r: Self)
        ensures
            bits(r) == Seq::<bool>::empty(),
    {
        Self::new_raw()
    }

    /// A bit vector of `nbits` copies of `bit`.
    pub fn from_elem(nbits: usize, bit: bool) -> (r: Self)
        ensures
            bits(r) == Seq::<bool>::new(nbits as nat, |i: int| bit),
    {
        Self::from_elem_raw(nbits, bit)
    }

    /// A bit vector holding eight bits for each byte, most significant
    /// bit first.
    pub fn from_bytes(bytes: &[u8]) -> (r: Self)
        requires
            8 * bytes@.len() <= usize::MAX,
        ensures
            bits(r).len() == 8 * bytes@.len(),
            forall|i: int|
                0 <= i < bits(r).len() ==> #[trigger] bits(r)[i] == byte_bit(bytes@[i / 8], i % 8),
    {
        Self::from_bytes_raw(bytes)
    }

    /// The number of stored bits.
    pub fn len(&self) -> (r: usize)
        ensures
            r == bits(*self).len(),
    {
        self.len_raw()
    }

    /// The bit at `i`, or `None` past the end.
    pub fn get(&self, i: usize) -> (r: Option<bool>)
        ensures
            r == if i < bits(*self).len() {
                Some(bits(*self)[i as int])
            } else {
                None::<bool>
            },
    {
        self.get_raw(i)
    }

    /// Overwrites the bit at `i`, which must be in bounds.
    pub fn set(&mut self, i: usize, elem: bool)
        requires
            i < bits(*old(self)).len(),
        ensures
            bits(*final (self)) == bits(*old(self)).update(i as int, elem),
    {
        self.set_raw(i, elem);
    }

    /// Appends one bit at the end.
    pub fn push(&mut self, elem: bool)
        requires
            bits(*old(self)).len() < usize::MAX,
        ensures
            bits(*final (self)) == bits(*old(self)).push(elem),
    {
        self.push_raw(elem);
    }

    /// Removes and returns the last bit, or `None` when empty.
    pub fn pop(&mut self) -> (r: Option<bool>)
        ensures
            bits(*old(self)).len() == 0 ==> r is None && bits(*final (self)) == bits(
                *old(self),
            ),
            bits(*old(self)).len() > 0 ==> r == Some(bits(*old(self)).last()) && bits(
                *final (self),
            ) == bits(*old(self)).drop_last(),
    {
        self.pop_raw()
    }

    /// Keeps the first `len` bits; no effect when `len` is not smaller
    /// than the current length.
    pub fn truncate(&mut self, len: usize)
        ensures
            len < bits(*old(self)).len() ==> bits(*final (self)) == bits(*old(self)).take(
                len as int,
            ),
            len >= bits(*old(self)).len() ==> bits(*final (self)) == bits(*old(self)),
    {
        self.truncate_raw(len);
    }

    /// Packs the bits into bytes, most significant bit first, padding the
    /// tail of a partial final byte with `false`.
    pub fn to_bytes(&self) -> (r: Vec<u8>)
        ensures
            r@.len() == (bits(*self).len() + 7) / 8,
            forall|i: int|
                0 <= i < 8 * r@.len() ==> #[trigger] byte_bit(r@[i / 8], i % 8) == (if i < bits(
                    *self,
                ).len() {
                    bits(*self)[i]
                } else {
                    false
                }),
    {
        self.to_bytes_raw()
    }

    /// Concatenates `other` after `self`, consuming it.
    pub fn append(&mut self, other: BitVecWrap)
        requires
            bits(*old(self)).len() + bits(other).len() <= usize::MAX,
        ensures
            bits(*final (self)) == bits(*old(self)) + bits(other),
    {
        self.append_raw(other);
    }

    /// True when every stored bit is 1 (vacuously true when empty).
    pub fn all(&self) -> (r: bool)
        ensures
            r <==> (forall|i: int| 0 <= i < bits(*self).len() ==> #[trigger] bits(*self)[i]),
    {
        self.all_raw()
    }

    /// True when every stored bit is 0 (vacuously true when empty).
    pub fn none(&self) -> (r: bool)
        ensures
            r <==> (forall|i: int| 0 <= i < bits(*self).len() ==> !#[trigger] bits(*self)[i]),
    {
        self.none_raw()
    }

    /// True when no bits are stored.
    pub fn is_empty(&self) -> (r: bool)
        ensures
            r <==> bits(*self).len() == 0,
    {
        self.len() == 0
    }

    /// The bit at `i`, which must be in bounds.
    pub fn bit_at(&self, i: usize) -> (r: bool)
        requires
            i < bits(*self).len(),
        ensures
            r == bits(*self)[i as int],
    {
        match self.get(i) {
            Some(b) => b,
            None => false,
        }
    }

    /// Sets every bit to 0, keeping the length.
    pub fn set_none(&mut self)
        ensures
            bits(*final (self)) == Seq::<bool>::new(bits(*old(self)).len(), |i: int| false),
    {
        self.set_all_raw();
        self.negate_raw();
        proof {
            assert(bits(*self) =~= Seq::<bool>::new(bits(*old(self)).len(), |i: int| false));
        }
    }

    /// How many of the first `pos` bits are 1.
    pub fn rank_one(&self, pos: usize) -> (r: usize)
        requires
            pos <= bits(*self).len(),
        ensures
            r == bit_count(bits(*self), true, pos as int),
    {
        let mut count: usize = 0;
        let mut i: usize = 0;
        while i < pos
            invariant
                pos <= bits(*self).len(),
                i <= pos,
                count <= i,
                count == bit_count(bits(*self), true, i as int),
            decreases pos - i,
        {
            if self.bit_at(i) {
                count = count + 1;
            }
            i = i + 1;
        }
        count
    }

    /// How many of the first `pos` bits are 0.
    pub fn rank_zero(&self, pos: usize) -> (r: usize)
        requires
            pos <= bits(*self).len(),
        ensures
            r == bit_count(bits(*self), false, pos as int),
    {
        proof {
            lemma_rank_partition(bits(*self), pos as int);
            lemma_bit_count_bounds(bits(*self), true, pos as int);
        }
        if pos == 0 {
            0
        } else {
            pos - self.rank_one(pos)
        }
    }

    /// How many of the first `pos` bits equal `bit`.
    pub fn rank(&self, bit: bool, pos: usize) -> (r: usize)
        requires
            pos <= bits(*self).len(),
        ensures
            r == bit_count(bits(*self), bit, pos as int),
    {
        match bit {
            false => self.rank_zero(pos),
            true => self.rank_one(pos),
        }
    }

    /// The 0-based position of the `occurrence_nr`-th occurrence of `bit`
    /// (counting from one), or `None` when there are fewer occurrences.
    pub fn select(&self, bit: bool, occurrence_nr: usize) -> (r: Option<usize>)
        requires
            occurrence_nr >= 1,
        ensures
            r matches Some(p) ==> p < bits(*self).len() && bits(*self)[p as int] == bit
                && bit_count(bits(*self), bit, p as int) == occurrence_nr - 1,
            r is None <==> bit_count(bits(*self), bit, bits(*self).len() as int)
                < occurrence_nr,
    {
        let n = self.len();
        let mut count: usize = 0;
        let mut p: usize = 0;
        while p < n
            invariant
                n == bits(*self).len(),
                p <= n,
                occurrence_nr >= 1,
                count < occurrence_nr,
                count == bit_count(bits(*self), bit, p as int),
            decreases n - p,
        {
            if self.bit_at(p) == bit {
                if count + 1 == occurrence_nr {
                    proof {
                        lemma_bit_count_mono(bits(*self), bit, p + 1, n as int);
                    }
                    return Some(p);
                }
                count = count + 1;
            }
            p = p + 1;
        }
        None
    }

    /// Inserts `elem` at index `i`, shifting the bits at indices `>= i`
    /// one position toward the end.
    pub fn insert(&mut self, i: usize, elem: bool)
        requires
            i <= bits(*old(self)).len(),
            bits(*old(self)).len() < usize::MAX,
        ensures
            bits(*final (self)) == bits(*old(self)).insert(i as int, elem),
    {
        let ghost s0 = bits(*self);
        let old_len = self.len();
        self.push(false);
        let mut j: usize = old_len;
        while j > i
            invariant
                i <= j <= s0.len(),
                bits(*self).len() == s0.len() + 1,
                forall|k: int| 0 <= k < j ==> bits(*self)[k] == s0[k],
                forall|k: int| j < k <= s0.len() ==> bits(*self)[k] == s0[k - 1],
            decreases j,
        {
            let prev = self.bit_at(j - 1);
            self.set(j, prev);
            j = j - 1;
        }
        self.set(i, elem);
        proof {
            s0.insert_ensures(i as int, elem);
            assert(bits(*self) =~= s0.insert(i as int, elem));
        }
    }

    /// Deletes the bit at index `i`, shifting the bits at indices `> i`
    /// one position toward the start.
    pub fn delete(&mut self, i: usize)
        requires
            i < bits(*old(self)).len(),
        ensures
            bits(*final (self)) == bits(*old(self)).remove(i as int),
    {
        let ghost s0 = bits(*self);
        let old_len = self.len();
        let mut j: usize = i + 1;
        while j < old_len
            invariant
                i < old_len == s0.len(),
                i + 1 <= j <= old_len,
                bits(*self).len() == s0.len(),
                forall|k: int| 0 <= k < i ==> bits(*self)[k] == s0[k],
                forall|k: int| i <= k < j - 1 ==> bits(*self)[k] == s0[k + 1],
                forall|k: int| j - 1 <= k < old_len ==> bits(*self)[k] == s0[k],
            decreases old_len - j,
        {
            let next = self.bit_at(j);
            self.set(j - 1, next);
            j = j + 1;
        }
        let _last = self.pop();
        proof {
            s0.remove_ensures(i as int);
            assert(bits(*self) =~= s0.remove(i as int));
        }
    }

    /// True exactly when `self` is a prefix of `other`.
    pub fn is_prefix_of(&self, other: &BitVecWrap) -> (r: bool)
        ensures
            r == is_prefix(bits(*self), bits(*other)),
    {
        let n = self.len();
        if n > other.len() {
            return false;
        }
        let mut i: usize = 0;
        while i < n
            invariant
                n == bits(*self).len(),
                n <= bits(*other).len(),
                i <= n,
                forall|k: int| 0 <= k < i ==> bits(*self)[k] == bits(*other)[k],
            decreases n - i,
        {
            if self.bit_at(i) != other.bit_at(i) {
                return false;
            }
            i = i + 1;
        }
        true
    }

    /// The longest shared initial run of bits of `self` and `other`; when
    /// the two are bit-for-bit identical, a full copy of that common value.
    pub fn longest_common_prefix(&self, other: &BitVecWrap) -> (r: BitVecWrap)
        ensures
            bits(*self) == bits(*other) ==> bits(r) == bits(*self),
            bits(*self) != bits(*other) ==> bits(r).len() <= bits(*self).len() && bits(
                r,
            ).len() <= bits(*other).len(),
            bits(*self) != bits(*other) ==> forall|k: int|
                0 <= k < bits(r).len() ==> bits(r)[k] == bits(*self)[k] && bits(r)[k] == bits(
                    *other,
                )[k],
            bits(*self) != bits(*other) ==> bits(r).len() == bits(*self).len() || bits(r).len()
                == bits(*other).len() || bits(*self)[bits(r).len() as int] != bits(*other)[bits(
                r,
            ).len() as int],
    {
        if self.eq(other) {
            return self.copy();
        }
        let n_self = self.len();
        let n_other = other.len();
        let n: usize = if n_self < n_other {
            n_self
        } else {
            n_other
        };
        let mut r = BitVecWrap::new();
        let mut i: usize = 0;
        while i < n
            invariant
                n <= bits(*self).len(),
                n <= bits(*other).len(),
                i <= n,
                bits(r).len() == i,
                forall|k: int|
                    0 <= k < i ==> bits(r)[k] == bits(*self)[k] && bits(r)[k] == bits(*other)[k],
            decreases n - i,
        {
            let b1 = self.bit_at(i);
            let b2 = other.bit_at(i);
            if b1 != b2 {
                return r;
            }
            r.push(b1);
            i = i + 1;
        }
        r
    }

    /// Splits off everything past index `len`: the bit at `len` (the first
    /// diverging bit) paired with the remaining bits as a new vector.
    pub fn different_suffix(&self, len: usize) -> (r: (bool, BitVecWrap))
        requires
            len < bits(*self).len(),
        ensures
            r.0 == bits(*self)[len as int],
            bits(r.1) == bits(*self).skip(len + 1),
    {
        let first_bit = self.bit_at(len);
        let n = self.len();
        let mut suffix = BitVecWrap::new();
        proof {
            assert(bits(suffix) =~= bits(*self).subrange(len + 1, len + 1));
        }
        let mut j: usize = len + 1;
        while j < n
            invariant
                len < n == bits(*self).len(),
                len + 1 <= j <= n,
                bits(suffix) == bits(*self).subrange(len + 1, j as int),
            decreases n - j,
        {
            let b = self.bit_at(j);
            suffix.push(b);
            proof {
                assert(bits(suffix) =~= bits(*self).subrange(len + 1, j + 1));
            }
            j = j + 1;
        }
        proof {
            assert(bits(suffix) =~= bits(*self).skip(len + 1));
        }
        (first_bit, suffix)
    }

    /// An independent duplicate holding the same bits.
    pub fn copy(&self) -> (r: BitVecWrap)
        ensures
            bits(r) == bits(*self),
    {
        let n = self.len();
        let mut dup = BitVecWrap::new();
        let mut i: usize = 0;
        while i < n
            invariant
                n == bits(*self).len(),
                i <= n,
                bits(dup) == bits(*self).take(i as int),
            decreases n - i,
        {
            let b = self.bit_at(i);
            dup.push(b);
            proof {
                assert(bits(dup) =~= bits(*self).take(i + 1));
            }
            i = i + 1;
        }
        proof {
            assert(bits(dup) =~= bits(*self));
        }
        dup
    }
}

impl PartialEq for BitVecWrap {
    fn eq(&self, other: &BitVecWrap) -> (r: bool) {
        let n = self.len();
        if n != other.len() {
            return false;
        }
        let mut i: usize = 0;
        while i < n
            invariant
                n == bits(*self).len(),
                n == bits(*other).len(),
                i <= n,
                forall|k: int| 0 <= k < i ==> bits(*self)[k] == bits(*other)[k],
            decreases n - i,
        {
            if self.bit_at(i) != other.bit_at(i) {
                return false;
            }
            i = i + 1;
        }
        proof {
            assert(bits(*self) =~= bits(*other));
        }
        true
    }
}

impl vstd::std_specs::cmp::PartialEqSpecImpl for BitVecWrap {
    open spec fn obeys_eq_spec() -> bool {
        true
    }

    open spec fn eq_spec(&self, other: &BitVecWrap) -> bool {
        bits(*self) == bits(*other)
    }
}

/// Two strings in the strict-prefix relation keep it after both drop
/// their first `l + 1` elements.
pub proof fn lemma_strict_prefix_skip(sa: Seq<bool>, sb: Seq<bool>, l: int)
    requires
        0 <= l,
        l + 1 <= sa.len(),
        is_strict_prefix(sa, sb),
    ensures
        is_strict_prefix(sa.skip(l + 1), sb.skip(l + 1)),
{
    assert forall|q: int| 0 <= q < sa.skip(l + 1).len() implies #[trigger] sa.skip(l + 1)[q]
        == sb.skip(l + 1)[q] by {
        assert(sa.skip(l + 1)[q] == sa[q + l + 1]);
        assert(sb.skip(l + 1)[q] == sb[q + l + 1]);
    }
}

/// Law: exporting a vector to bytes and importing the bytes again
/// restores the vector once the import is cut back to the original
/// length; the padding bits of a partial final byte carry no information.
pub fn bytes_round_trip(v: &BitVecWrap) -> (r: BitVecWrap)
    requires
        bits(*v).len() + 7 <= usize::MAX,
    ensures
        bits(r) == bits(*v),
{
    let bytes = v.to_bytes();
    let mut r = BitVecWrap::from_bytes(bytes.as_slice());
    r.truncate(v.len());
    proof {
        assert(bits(*v).len() <= 8 * bytes@.len());
        assert(bits(r) =~= bits(*v));
    }
    r
}

/// Law: inserting a bit and then deleting at the same index restores the
/// original vector.
pub proof fn lemma_insert_then_delete(s: Seq<bool>, i: int, b: bool)
    requires
        0 <= i <= s.len(),
    ensures
        s.insert(i, b).remove(i) == s,
{
    s.insert_ensures(i, b);
    s.insert(i, b).remove_ensures(i);
    assert(s.insert(i, b).remove(i) =~= s);
}

} // verus!
