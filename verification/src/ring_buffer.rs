//! Fixed-capacity circular byte store.
//!
//! The buffer owns a backing array of `capacity` bytes and keeps a `cursor`
//! (the position of the oldest retained byte) together with a length.  Bytes
//! in the logical range `[start, start + len)` (taken modulo the capacity) are
//! valid; bytes outside it are free space that a producer may fill before
//! committing them with `assume_init`.  Readers keep their own cursors and are
//! handed zero-copy slices of the valid range; the buffer itself never tracks
//! per-reader progress.

use vstd::prelude::*;

verus! {

use vstd::arithmetic::div_mod::lemma_fundamental_div_mod;
use vstd::arithmetic::div_mod::lemma_mod_multiples_vanish;
use vstd::arithmetic::div_mod::lemma_small_mod;
use vstd::slice::slice_subrange;

/// For a value already below twice the modulus, taking the remainder is one
/// conditional subtraction.
pub(crate) proof fn lemma_mod_two_ranges(a: int, c: int)
    requires
        0 < c,
        0 <= a < 2 * c,
    ensures
        a % c == if a < c {
            a
        } else {
            a - c
        },
{
    if a < c {
        lemma_small_mod(a as nat, c as nat);
    } else {
        lemma_mod_multiples_vanish(1, a - c, c);
        assert(a % c == (a - c) % c) by {
            assert(a == c * 1 + (a - c));
        }
        lemma_small_mod((a - c) as nat, c as nat);
    }
}

/// A position in a buffer's index space, always normalized modulo the
/// capacity it was created for.  Comparable only relative to a buffer of the
/// same capacity.
#[derive(Clone, Copy, Debug, PartialEq, Eq, Structural)]
pub struct RingBufferCursor {
    pub inner: usize,
    pub capacity: usize,
}

impl RingBufferCursor {
    /// A cursor is meaningful only for a positive capacity and always stays
    /// strictly below it.
    pub open spec fn wf(self) -> bool {
        0 < self.capacity && self.inner < self.capacity
    }

    /// The cursor `n` positions further on, wrapping around the capacity.
    pub open spec fn spec_add(self, n: int) -> RingBufferCursor {
        RingBufferCursor {
            inner: (((self.inner + n) % (self.capacity as int)) as usize),
            capacity: self.capacity,
        }
    }

    /// Advance the cursor by `rhs` positions, wrapping around the capacity.
    pub fn add(self, rhs: usize) -> (r: Self)
        requires
            self.wf(),
        ensures
            r.wf(),
            r == self.spec_add(rhs as int),
            r.capacity == self.capacity,
            r.inner as int == (self.inner + rhs) % (self.capacity as int),
    {
        let m: usize = rhs % self.capacity;
        let space: usize = self.capacity - self.inner;
        let inner: usize = if m >= space {
            m - space
        } else {
            self.inner + m
        };
        proof {
            let c = self.capacity as int;
            let i = self.inner as int;
            let r = rhs as int;
            lemma_fundamental_div_mod(r, c);
            assert(r == c * (r / c) + m);
            lemma_mod_multiples_vanish(r / c, i + m, c);
            assert((i + r) % c == (i + m) % c) by {
                assert(i + r == c * (r / c) + (i + m));
            }
            if i + m < c {
                lemma_small_mod((i + m) as nat, c as nat);
            } else {
                lemma_mod_multiples_vanish(1, i + m - c, c);
                assert((i + m) % c == (i + m - c) % c) by {
                    assert(i + m == c * 1 + (i + m - c));
                }
                lemma_small_mod((i + m - c) as nat, c as nat);
            }
        }
        RingBufferCursor { inner, capacity: self.capacity }
    }

    /// Advance this cursor in place, wrapping around the capacity.
    pub fn add_assign(&mut self, rhs: usize)
        requires
            old(self).wf(),
        ensures
            final(self).wf(),
            *final(self) == old(self).spec_add(rhs as int),
            final(self).capacity == old(self).capacity,
            final(self).inner as int == (old(self).inner + rhs) % (old(self).capacity as int),
    {
        let c = *self;
        *self = c.add(rhs);
    }
}

/// One contiguous run of the backing array, described by its first index and
/// its length.  `unused_slices` hands free space out as two such runs.
#[derive(Clone, Copy, Debug, PartialEq, Eq, Structural)]
pub struct Region {
    pub offset: usize,
    pub len: usize,
}

/// The circular byte buffer.  `cursor` marks the oldest valid byte, `len` how
/// many bytes from there are valid; both wrap around `data.len()`.
#[derive(Debug)]
pub struct RingBuffer {
    pub data: Vec<u8>,
    pub cursor: RingBufferCursor,
    pub len: usize,
}

impl RingBuffer {
    pub open spec fn capacity(self) -> int {
        self.data@.len() as int
    }

    pub open spec fn wf(self) -> bool {
        &&& self.cursor.wf()
        &&& self.cursor.capacity == self.data@.len()
        &&& self.len <= self.data@.len()
    }

    /// Physical index of the byte `i` positions past the start cursor,
    /// for `0 <= i <= capacity`.
    pub open spec fn phys(self, i: int) -> int {
        if self.cursor.inner + i < self.capacity() {
            self.cursor.inner + i
        } else {
            self.cursor.inner + i - self.capacity()
        }
    }

    /// Logical offset (distance past the start cursor) of physical index `p`.
    /// Inverse of `phys` on `[0, capacity)`.
    pub open spec fn log_of(self, p: int) -> int {
        if p >= self.cursor.inner {
            p - self.cursor.inner
        } else {
            p + self.capacity() - self.cursor.inner
        }
    }

    /// Physical index one past the newest valid byte.
    pub open spec fn end_index(self) -> int {
        self.phys(self.len as int)
    }

    /// The cursor one past the newest valid byte, as a value.
    pub open spec fn spec_end(self) -> RingBufferCursor {
        RingBufferCursor { inner: self.end_index() as usize, capacity: self.cursor.capacity }
    }

    /// The valid bytes, oldest first.
    pub open spec fn contents(self) -> Seq<u8> {
        Seq::new(self.len as nat, |i: int| self.data@[self.phys(i)])
    }

    /// The free bytes, in the order a producer fills them: the byte at free
    /// offset `i` lives at physical index `phys(len + i)`.
    pub open spec fn free_seq(self) -> Seq<u8> {
        Seq::new((self.capacity() - self.len) as nat, |i: int| self.data@[self.phys(self.len + i)])
    }

    /// Whether physical position `c` lies inside the valid range
    /// `[start, end)`, mirroring the case split on wraparound.
    pub open spec fn valid_cursor(self, c: int) -> bool {
        if self.len == 0 {
            false
        } else if self.end_index() > self.cursor.inner {
            self.cursor.inner <= c < self.end_index()
        } else {
            self.cursor.inner <= c < self.capacity() || 0 <= c < self.end_index()
        }
    }

    /// Logical offset of a valid physical position `c`.
    pub open spec fn offset_of(self, c: int) -> int {
        if c >= self.cursor.inner {
            c - self.cursor.inner
        } else {
            c + self.capacity() - self.cursor.inner
        }
    }

    /// Every valid byte from position `c` (inclusive) to the end, oldest
    /// first; empty when `c` is outside the valid range.
    pub open spec fn readable_from(self, c: int) -> Seq<u8> {
        if self.valid_cursor(c) {
            self.contents().skip(self.offset_of(c))
        } else {
            Seq::empty()
        }
    }

    /// The first of the two runs `slices_from` returns for position `c`: the
    /// contiguous bytes from `c` up to `end`, or up to the physical boundary
    /// when the data past `c` wraps.
    pub open spec fn first_slice_from(self, c: int) -> Seq<u8> {
        if !self.valid_cursor(c) {
            Seq::empty()
        } else if c < self.end_index() {
            self.data@.subrange(c, self.end_index())
        } else {
            self.data@.subrange(c, self.capacity())
        }
    }

    /// The second of the two runs `slices_from` returns for position `c`:
    /// empty unless the data past `c` wraps, and then the bytes from the
    /// physical start up to `end`.
    pub open spec fn second_slice_from(self, c: int) -> Seq<u8> {
        if self.valid_cursor(c) && c >= self.end_index() {
            self.data@.subrange(0, self.end_index())
        } else {
            Seq::empty()
        }
    }

    /// A fresh buffer of the given capacity: empty, with its start cursor at
    /// position zero.
    pub fn new(capacity: usize) -> (r: Self)
        requires
            capacity > 0,
        ensures
            r.wf(),
            r.capacity() == capacity,
            r.len == 0,
            r.cursor.inner == 0,
    {
        let mut data: Vec<u8> = Vec::new();
        let mut i: usize = 0;
        while i < capacity
            invariant
                data@.len() == i,
                i <= capacity,
            decreases capacity - i,
        {
            data.push(0u8);
            i = i + 1;
        }
        RingBuffer { data, cursor: RingBufferCursor { inner: 0, capacity }, len: 0 }
    }

    pub fn is_empty(&self) -> (r: bool)
        ensures
            r == (self.len == 0),
    {
        self.len == 0
    }

    pub fn is_full(&self) -> (r: bool)
        ensures
            r == (self.len == self.capacity()),
    {
        self.len == self.data.len()
    }

    pub fn len(&self) -> (r: usize)
        ensures
            r == self.len,
    {
        self.len
    }

    /// The cursor of the oldest valid byte.
    pub fn start(&self) -> (r: RingBufferCursor)
        ensures
            r == self.cursor,
    {
        self.cursor
    }

    /// The cursor one past the newest valid byte.
    pub fn end(&self) -> (r: RingBufferCursor)
        requires
            self.wf(),
        ensures
            r.wf(),
            r == self.spec_end(),
            r.capacity == self.cursor.capacity,
            r.inner == self.end_index(),
    {
        let r = self.cursor.add(self.len);
        proof {
            lemma_mod_two_ranges(self.cursor.inner + self.len, self.capacity());
        }
        r
    }

    /// The free capacity as up to two contiguous runs of the backing array:
    /// first the run from `end` towards the physical boundary, then the run
    /// from the physical start up to `start`.  Together they cover exactly
    /// `capacity - len` bytes, in the order a producer must fill them; when
    /// the buffer is full both runs are empty.
    pub fn unused_slices(&self) -> (r: (Region, Region))
        requires
            self.wf(),
        ensures
            r.0.offset == self.end_index(),
            r.1.offset == 0,
            r.0.offset + r.0.len <= self.capacity(),
            r.0.len + r.1.len == self.capacity() - self.len,
            self.len == 0 || self.end_index() > self.cursor.inner ==> r.0.len == self.capacity()
                - self.end_index() && r.1.len == self.cursor.inner,
            self.len != 0 && self.end_index() <= self.cursor.inner ==> r.0.len == self.cursor.inner
                - self.end_index() && r.1.len == 0,
            Seq::new(r.0.len as nat, |i: int| self.data@[r.0.offset + i]) + Seq::new(
                r.1.len as nat,
                |i: int| self.data@[i],
            ) == self.free_seq(),
    {
        let start = self.cursor.inner;
        let end = self.end().inner;
        let r = if self.len == 0 || end > start {
            (
                Region { offset: end, len: self.data.len() - end },
                Region { offset: 0, len: start },
            )
        } else {
            (Region { offset: end, len: start - end }, Region { offset: 0, len: 0 })
        };
        proof {
            let lhs = Seq::new(r.0.len as nat, |i: int| self.data@[r.0.offset + i]) + Seq::new(
                r.1.len as nat,
                |i: int| self.data@[i],
            );
            assert forall|i: int| 0 <= i < lhs.len() implies lhs[i] == self.free_seq()[i] by {
                assert(self.free_seq()[i] == self.data@[self.phys(self.len + i)]);
            }
            assert(lhs =~= self.free_seq());
        }
        r
    }

    /// Every valid byte from `cursor` (inclusive) to `end` (exclusive), as up
    /// to two zero-copy slices split at the physical boundary.  A cursor
    /// outside the valid range — stale, caught up, or an empty buffer —
    /// yields two empty slices.
    pub fn slices_from<'a>(&'a self, cursor: RingBufferCursor) -> (r: (&'a [u8], &'a [u8]))
        requires
            self.wf(),
            cursor.wf(),
            cursor.capacity == self.cursor.capacity,
        ensures
            r.0@ == self.first_slice_from(cursor.inner as int),
            r.1@ == self.second_slice_from(cursor.inner as int),
            r.0@ + r.1@ == self.readable_from(cursor.inner as int),
    {
        let c = cursor.inner;
        let start = self.cursor.inner;
        let end = self.end().inner;
        let empty: &[u8] = slice_subrange(self.data.as_slice(), 0, 0);
        let r: (&[u8], &[u8]) = if self.len == 0 || end > start {
            if c >= start && c < end {
                (slice_subrange(self.data.as_slice(), c, end), empty)
            } else {
                (empty, empty)
            }
        } else {
            if c >= start {
                (
                    slice_subrange(self.data.as_slice(), c, self.data.len()),
                    slice_subrange(self.data.as_slice(), 0, end),
                )
            } else if c < end {
                (slice_subrange(self.data.as_slice(), c, end), empty)
            } else {
                (empty, empty)
            }
        };
        proof {
            let cc = c as int;
            if self.valid_cursor(cc) {
                let j = self.offset_of(cc);
                let want = self.contents().skip(j);
                let got = r.0@ + r.1@;
                assert forall|i: int| 0 <= i < got.len() implies got[i] == want[i] by {
                    assert(want[i] == self.data@[self.phys(j + i)]);
                }
                assert(got =~= want);
            } else {
                assert(r.0@ + r.1@ =~= Seq::<u8>::empty());
            }
        }
        r
    }

    /// Commit `n` freshly filled bytes: the caller has written `n` bytes into
    /// the runs most recently returned by `unused_slices`, in order.  The
    /// length grows by `n`, saturating at the capacity; the start cursor and
    /// the backing array do not move.
    pub fn assume_init(&mut self, n: usize)
        requires
            old(self).wf(),
        ensures
            final(self).wf(),
            *final(self) == old(self).spec_assume_init(n as int),
            final(self).cursor == old(self).cursor,
            final(self).data == old(self).data,
            final(self).len as int == if old(self).len + n <= old(self).capacity() {
                old(self).len + n
            } else {
                old(self).capacity()
            },
            final(self).contents() == old(self).contents() + old(self).free_seq().take(
                final(self).len - old(self).len,
            ),
            final(self).free_seq() == old(self).free_seq().skip(final(self).len - old(self).len),
    {
        let free = self.data.len() - self.len;
        if n >= free {
            self.len = self.data.len();
        } else {
            self.len = self.len + n;
        }
        proof {
            let d = self.len - old(self).len;
            let con = old(self).contents() + old(self).free_seq().take(d);
            assert forall|i: int| 0 <= i < con.len() implies con[i] == self.contents()[i] by {
                assert(self.contents()[i] == self.data@[self.phys(i)]);
                if i < old(self).len {
                    assert(old(self).contents()[i] == self.data@[self.phys(i)]);
                } else {
                    assert(old(self).free_seq()[i - old(self).len] == self.data@[self.phys(i)]);
                }
            }
            assert(self.contents() =~= con);
            let fre = old(self).free_seq().skip(d);
            assert forall|i: int| 0 <= i < fre.len() implies fre[i] == self.free_seq()[i] by {
                assert(old(self).free_seq()[d + i] == self.data@[old(self).phys(old(self).len + d
                    + i)]);
                assert(self.free_seq()[i] == self.data@[self.phys(self.len + i)]);
            }
            assert(self.free_seq() =~= fre);
        }
    }

    /// The buffer after committing `n` freshly filled bytes, its length
    /// saturating at the capacity.
    pub open spec fn spec_assume_init(self, n: int) -> RingBuffer {
        RingBuffer {
            data: self.data,
            cursor: self.cursor,
            len: if self.len + n <= self.capacity() {
                (self.len + n) as usize
            } else {
                self.data@.len() as usize
            },
        }
    }

    /// The buffer after discarding its oldest `min(n, len)` bytes.
    pub open spec fn spec_remove(self, n: int) -> RingBuffer {
        let k = if n < self.len {
            n
        } else {
            self.len as int
        };
        RingBuffer {
            data: self.data,
            cursor: RingBufferCursor {
                inner: self.phys(k) as usize,
                capacity: self.cursor.capacity,
            },
            len: (self.len - k) as usize,
        }
    }

    /// Discard the oldest `min(n, len)` bytes, advancing the start cursor;
    /// this is the only way buffer space is reclaimed.
    pub fn remove(&mut self, n: usize)
        requires
            old(self).wf(),
        ensures
            final(self).wf(),
            *final(self) == old(self).spec_remove(n as int),
            final(self).contents() == old(self).contents().skip(
                if n < old(self).len {
                    n as int
                } else {
                    old(self).len as int
                },
            ),
    {
        let k = if n < self.len {
            n
        } else {
            self.len
        };
        let c = self.cursor;
        self.cursor = c.add(k);
        self.len = self.len - k;
        proof {
            lemma_mod_two_ranges(old(self).cursor.inner + k, old(self).capacity());
            assert(self.cursor.inner == old(self).phys(k as int));
            let want = old(self).contents().skip(k as int);
            assert forall|i: int| 0 <= i < want.len() implies want[i] == self.contents()[i] by {
                assert(old(self).contents()[k + i] == self.data@[old(self).phys(k + i)]);
                assert(self.contents()[i] == self.data@[self.phys(i)]);
            }
            assert(self.contents() =~= want);
        }
    }

    /// Fill the free bytes at free offsets `[offset, offset + bytes.len())`
    /// with `bytes`, leaving the valid bytes, the start cursor and the length
    /// untouched.  Free offset `i` is the `i`-th byte of the runs that
    /// `unused_slices` returns.
    pub fn write_free(&mut self, offset: usize, bytes: &[u8])
        requires
            old(self).wf(),
            offset + bytes@.len() <= old(self).capacity() - old(self).len,
        ensures
            final(self).wf(),
            final(self).cursor == old(self).cursor,
            final(self).len == old(self).len,
            final(self).data@.len() == old(self).data@.len(),
            final(self).contents() == old(self).contents(),
            final(self).free_seq() == old(self).free_seq().take(offset as int) + bytes@ + old(
                self,
            ).free_seq().skip(offset + bytes@.len()),
    {
        let ghost pre = *old(self);
        let mut j: usize = 0;
        while j < bytes.len()
            invariant
                pre.wf(),
                offset + bytes@.len() <= pre.capacity() - pre.len,
                j <= bytes@.len(),
                self.cursor == pre.cursor,
                self.len == pre.len,
                self.data@.len() == pre.data@.len(),
                forall|p: int|
                    0 <= p < pre.capacity() ==> #[trigger] self.data@[p] == (if pre.len + offset
                        <= pre.log_of(p) < pre.len + offset + j {
                        bytes@[pre.log_of(p) - pre.len - offset]
                    } else {
                        pre.data@[p]
                    }),
            decreases bytes@.len() - j,
        {
            let pos = self.len + offset + j;
            let idx = self.cursor.add(pos).inner;
            proof {
                lemma_mod_two_ranges(pre.cursor.inner + pos, pre.capacity());
                assert(idx == pre.phys(pos as int));
                assert(pre.log_of(pre.phys(pos as int)) == pos);
            }
            self.data[idx] = bytes[j];
            j = j + 1;
        }
        proof {
            let m = bytes@.len() as int;
            let want = pre.free_seq().take(offset as int) + bytes@ + pre.free_seq().skip(
                offset + m,
            );
            assert forall|i: int| 0 <= i < want.len() implies want[i] == self.free_seq()[i] by {
                assert(self.free_seq()[i] == self.data@[pre.phys(pre.len + i)]);
                assert(pre.log_of(pre.phys(pre.len + i)) == pre.len + i);
                if i < offset {
                    assert(pre.free_seq()[i] == pre.data@[pre.phys(pre.len + i)]);
                } else if i < offset + m {
                } else {
                    assert(pre.free_seq()[i] == pre.data@[pre.phys(pre.len + i)]);
                }
            }
            assert(self.free_seq() =~= want);
            assert forall|i: int| 0 <= i < pre.len implies pre.contents()[i]
                == self.contents()[i] by {
                assert(self.contents()[i] == self.data@[pre.phys(i)]);
                assert(pre.log_of(pre.phys(i)) == i);
                assert(pre.contents()[i] == pre.data@[pre.phys(i)]);
            }
            assert(self.contents() =~= pre.contents());
        }
    }
}

/// A physical position is inside the valid range exactly when its logical
/// offset falls below the length; the offset of a position in the index
/// space is always below the capacity.
pub proof fn lemma_valid_cursor_offset(b: RingBuffer, c: int)
    requires
        b.wf(),
        0 <= c < b.capacity(),
    ensures
        b.valid_cursor(c) <==> b.offset_of(c) < b.len,
        0 <= b.offset_of(c) < b.capacity(),
{
}

/// Law: filling free space and committing it never loses or reorders a
/// byte.  After committing `n` filled bytes, a cursor that was valid reads
/// its old view followed by exactly the `n` new bytes, and a cursor that sat
/// at `end` reads exactly the `n` new bytes — regardless of wraparound.
pub proof fn lemma_append_then_read(pre: RingBuffer, n: usize, c: int)
    requires
        pre.wf(),
        0 < n <= pre.capacity() - pre.len,
        pre.valid_cursor(c) || c == pre.end_index(),
    ensures
        ({
            let post = pre.spec_assume_init(n as int);
            post.readable_from(c) == if pre.valid_cursor(c) {
                pre.readable_from(c) + pre.free_seq().take(n as int)
            } else {
                pre.free_seq().take(n as int)
            }
        }),
{
    let post = pre.spec_assume_init(n as int);
    assert(post.len == pre.len + n);
    assert forall|i: int| 0 <= i < post.len implies post.contents()[i] == (pre.contents()
        + pre.free_seq().take(n as int))[i] by {
        assert(post.contents()[i] == post.data@[post.phys(i)]);
        if i < pre.len {
            assert(pre.contents()[i] == pre.data@[pre.phys(i)]);
        } else {
            assert(pre.free_seq()[i - pre.len] == pre.data@[pre.phys(i)]);
        }
    }
    assert(post.contents() =~= pre.contents() + pre.free_seq().take(n as int));
    lemma_valid_cursor_offset(pre, c);
    lemma_valid_cursor_offset(post, c);
    let j = pre.offset_of(c);
    assert(post.offset_of(c) == j);
    if pre.valid_cursor(c) {
        assert(j < pre.len);
    } else {
        assert(pre.offset_of(pre.end_index()) == pre.len);
        assert(j == pre.len);
    }
    assert(post.valid_cursor(c));
    let want = if pre.valid_cursor(c) {
        pre.readable_from(c) + pre.free_seq().take(n as int)
    } else {
        pre.free_seq().take(n as int)
    };
    assert forall|i: int| 0 <= i < want.len() implies want[i] == post.readable_from(c)[i] by {
        assert(post.readable_from(c)[i] == post.contents()[j + i]);
    }
    assert(post.readable_from(c) =~= want);
}

/// Law: removing more than the buffer holds is the same as removing exactly
/// what it holds — `remove` saturates at the current length.
pub proof fn lemma_remove_saturates(b: RingBuffer, n: int)
    requires
        b.wf(),
        n >= b.len,
    ensures
        b.spec_remove(n) == b.spec_remove(b.len as int),
{
}

/// Law: reading from the start cursor yields every valid byte, so the total
/// length of the two slices equals `len`.
pub proof fn lemma_read_from_start(b: RingBuffer)
    requires
        b.wf(),
    ensures
        b.readable_from(b.cursor.inner as int) == b.contents(),
{
    if b.len > 0 {
        assert(b.valid_cursor(b.cursor.inner as int));
        assert(b.offset_of(b.cursor.inner as int) == 0);
        assert(b.contents().skip(0) =~= b.contents());
    } else {
        assert(b.readable_from(b.cursor.inner as int) =~= b.contents());
    }
}

/// Law: advancing the tail never discards a byte still pending for a reader
/// that has already consumed that far.  If a cursor sits at logical offset
/// `j` — whether inside the valid range or past it — removing `k <= j`
/// oldest bytes leaves exactly the same bytes readable from that cursor.
pub proof fn lemma_remove_preserves_reader(b: RingBuffer, k: usize, c: int)
    requires
        b.wf(),
        0 <= c < b.capacity(),
        k <= b.len,
        k <= b.offset_of(c),
    ensures
        b.spec_remove(k as int).readable_from(c) == b.readable_from(c),
{
    let b2 = b.spec_remove(k as int);
    lemma_valid_cursor_offset(b, c);
    let j = b.offset_of(c);
    assert(b2.cursor.inner == b.phys(k as int));
    assert(b2.offset_of(c) == j - k);
    lemma_valid_cursor_offset(b2, c);
    if b.valid_cursor(c) {
        assert forall|i: int| 0 <= i < b2.len implies b2.contents()[i] == b.contents()[k + i] by {
            assert(b2.contents()[i] == b2.data@[b2.phys(i)]);
            assert(b.contents()[k + i] == b.data@[b.phys(k + i)]);
        }
        assert(b2.contents() =~= b.contents().skip(k as int));
        assert(b2.valid_cursor(c));
        assert forall|i: int| 0 <= i < b2.len - (j - k) implies b2.contents().skip(j - k)[i]
            == b.contents().skip(j)[i] by {
            assert(b2.contents()[j - k + i] == b.contents()[j + i]);
        }
        assert(b2.readable_from(c) =~= b.readable_from(c));
    } else {
        // The cursor was outside the valid range, so its offset is at least
        // `len`; after the removal it is still at least the new length, and
        // both readings are empty.
        assert(j >= b.len);
        assert(!b2.valid_cursor(c));
        assert(b2.readable_from(c) =~= b.readable_from(c));
    }
}

/// Law: a cursor standing at `end` reads nothing until more bytes are
/// committed.  This holds for every buffer that is not exactly full; when
/// the buffer is full, `end` coincides with `start` and reads everything.
pub proof fn lemma_end_cursor_reads_nothing(b: RingBuffer)
    requires
        b.wf(),
        b.len < b.capacity(),
    ensures
        b.readable_from(b.end_index()) == Seq::<u8>::empty(),
{
    lemma_valid_cursor_offset(b, b.end_index());
    assert(b.offset_of(b.end_index()) == b.len);
}

} // verus!
