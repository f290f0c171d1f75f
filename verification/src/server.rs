//! The decision core of the fan-out server.
//!
//! The server owns the shared ring buffer and the connection table and makes
//! every decision of the accept/write/read cycle: where a new connection
//! starts reading, how each write outcome moves that connection's cursor,
//! when the buffer's tail may advance, and how freshly read bytes are
//! committed.  The I/O runtime around the library performs the actual
//! accepts, vectored writes and reads, and hands their outcomes back; the
//! slowest consumer thereby holds the tail in place, so a full buffer stops
//! the producer — backpressure without any explicit signalling.

use vstd::prelude::*;

verus! {

use crate::connection::Connection;
use crate::connection::local_at;
use crate::connection::remote_at;
use crate::connection::slab_entries;
use crate::connection::slab_next_key;
use crate::connection::slab_get;
use crate::connection::slab_ids;
use crate::connection::slab_insert;
use crate::connection::slab_new;
use crate::connection::slab_remove;
use crate::connection::slab_set;
use crate::ring_buffer::Region;
use crate::ring_buffer::RingBuffer;
use crate::ring_buffer::lemma_mod_two_ranges;
use crate::ring_buffer::lemma_remove_preserves_reader;
use crate::ring_buffer::lemma_valid_cursor_offset;

/// What one attempt to write a connection's pending bytes to its sink came
/// to.  A fatal I/O error is none of these: it ends the whole server and
/// never reaches the core.
#[derive(Clone, Copy, Debug)]
pub enum WriteOutcome {
    /// The sink accepted this many bytes; never zero while bytes are pending.
    Wrote(usize),
    /// The sink is not ready; the connection keeps all its pending bytes.
    WouldBlock,
    /// The peer is gone; the connection alone is dropped, the server goes on.
    BrokenPipe,
}

/// The shared buffer, the table of consumers reading from it, and the
/// running state of the current write round.
pub struct Server {
    connections: slab::Slab<Connection>,
    output_buffer: RingBuffer,
    round_min: usize,
    round_done: Ghost<Set<usize>>,
}

impl Server {
    /// The live connections, by stable id.
    pub closed spec fn conns(self) -> Map<usize, Connection> {
        slab_entries(self.connections)
    }

    /// The shared output buffer.
    pub closed spec fn buf(self) -> RingBuffer {
        self.output_buffer
    }

    /// The id that the table's next insertion will be given.
    pub closed spec fn next_id(self) -> usize {
        slab_next_key(self.connections)
    }

    /// The least write progress recorded in the current round.
    pub closed spec fn spec_round_min(self) -> int {
        self.round_min as int
    }

    /// The connections whose write outcome the current round has recorded.
    pub closed spec fn spec_round_done(self) -> Set<usize> {
        self.round_done@
    }

    /// The write-round invariant, established by `begin_write_round` and
    /// kept by `apply_write_outcome`: the round minimum never exceeds what
    /// the buffer holds, and every recorded connection has consumed at least
    /// that many of the oldest bytes.  A recorded cursor standing exactly at
    /// `start` (offset zero) has just consumed one whole capacity's worth
    /// and wrapped; `start` and `end` coincide there, the design's one
    /// ambiguous position.
    pub open spec fn round_inv(self) -> bool {
        &&& self.spec_round_min() <= self.buf().len
        &&& forall|id: usize|
            self.conns().dom().contains(id) && self.spec_round_done().contains(id)
                ==> self.spec_round_min() <= self.buf().offset_of(
                (#[trigger] self.conns()[id]).cursor_spec().inner as int,
            ) || self.buf().offset_of(self.conns()[id].cursor_spec().inner as int) == 0
    }

    /// The buffer is well formed and every connection's cursor indexes its
    /// capacity.
    pub open spec fn wf(self) -> bool {
        &&& self.buf().wf()
        &&& forall|id: usize|
            self.conns().dom().contains(id) ==> (#[trigger] self.conns()[id]).cursor_spec().wf()
                && self.conns()[id].cursor_spec().capacity == self.buf().cursor.capacity
    }

    /// Bytes still unread by connection `id`.
    pub open spec fn pending(self, id: usize) -> int {
        self.buf().readable_from(self.conns()[id].cursor_spec().inner as int).len() as int
    }

    /// A fresh server: an empty buffer of the given capacity and no
    /// connections.
    pub fn new(capacity: usize) -> (s: Server)
        requires
            capacity > 0,
        ensures
            s.wf(),
            s.conns() == crate::connection::empty_table(),
            s.next_id() == 0,
            s.buf().capacity() == capacity,
            s.buf().len == 0,
            s.buf().cursor.inner == 0,
    {
        Server {
            connections: slab_new(),
            output_buffer: RingBuffer::new(capacity),
            round_min: 0,
            round_done: Ghost(Set::empty()),
        }
    }

    /// The shared buffer, for its queries.
    pub fn buffer(&self) -> (r: &RingBuffer)
        ensures
            *r == self.buf(),
    {
        &self.output_buffer
    }

    /// Register the sink that mirrors the stream to the server's own stdout.
    /// The new connection starts at `end`: it sees only bytes that arrive
    /// after registration.
    pub fn register_local(&mut self) -> (id: usize)
        requires
            old(self).wf(),
        ensures
            final(self).wf(),
            final(self).buf() == old(self).buf(),
            id == old(self).next_id(),
            !old(self).conns().dom().contains(id),
            final(self).conns() == old(self).conns().insert(
                id,
                local_at(old(self).buf().spec_end()),
            ),
    {
        let cursor = self.output_buffer.end();
        let id = slab_insert(&mut self.connections, Connection::Stdio(
            crate::connection::StdioConnection { cursor },
        ));
        proof {
            assert forall|i: usize| self.conns().dom().contains(i) implies (
            #[trigger] self.conns()[i]).cursor_spec().wf() && self.conns()[i].cursor_spec().capacity
                == self.buf().cursor.capacity by {
                if i != id {
                    assert(old(self).conns().dom().contains(i));
                    assert(self.conns()[i] == old(self).conns()[i]);
                }
            }
        }
        id
    }

    /// Admit one connection accepted over the local socket.  It starts at
    /// `end`: a client sees only bytes produced after it attached, never
    /// history.
    pub fn accept_connection(&mut self) -> (id: usize)
        requires
            old(self).wf(),
        ensures
            final(self).wf(),
            final(self).buf() == old(self).buf(),
            id == old(self).next_id(),
            !old(self).conns().dom().contains(id),
            final(self).conns() == old(self).conns().insert(
                id,
                remote_at(old(self).buf().spec_end()),
            ),
    {
        let cursor = self.output_buffer.end();
        let id = slab_insert(&mut self.connections, Connection::Unix(
            crate::connection::UnixConnection { cursor },
        ));
        proof {
            assert forall|i: usize| self.conns().dom().contains(i) implies (
            #[trigger] self.conns()[i]).cursor_spec().wf() && self.conns()[i].cursor_spec().capacity
                == self.buf().cursor.capacity by {
                if i != id {
                    assert(old(self).conns().dom().contains(i));
                    assert(self.conns()[i] == old(self).conns()[i]);
                }
            }
        }
        id
    }

    /// The live connection ids, each exactly once, in increasing order.
    pub fn connection_ids(&self) -> (r: Vec<usize>)
        ensures
            forall|i: int, j: int| 0 <= i < j < r@.len() ==> r@[i] < r@[j],
            forall|id: usize| #[trigger] r@.contains(id) <==> self.conns().dom().contains(id),
    {
        slab_ids(&self.connections)
    }

    /// The connection under `id`, if that id is live.
    pub fn connection(&self, id: usize) -> (r: Option<Connection>)
        ensures
            r == if self.conns().dom().contains(id) {
                Some(self.conns()[id])
            } else {
                None::<Connection>
            },
    {
        slab_get(&self.connections, id)
    }

    /// The bytes still unread by connection `id`, as up to two zero-copy
    /// slices for one vectored write to its sink.
    pub fn connection_slices<'a>(&'a self, id: usize) -> (r: (&'a [u8], &'a [u8]))
        requires
            self.wf(),
            self.conns().dom().contains(id),
        ensures
            r.0@ == self.buf().first_slice_from(self.conns()[id].cursor_spec().inner as int),
            r.1@ == self.buf().second_slice_from(self.conns()[id].cursor_spec().inner as int),
            r.0@ + r.1@ == self.buf().readable_from(
                self.conns()[id].cursor_spec().inner as int,
            ),
    {
        let conn = slab_get(&self.connections, id).unwrap();
        self.output_buffer.slices_from(conn.cursor())
    }

    /// Open a write round: the round minimum starts at everything the
    /// buffer holds and no connection's outcome is recorded yet.
    pub fn begin_write_round(&mut self)
        requires
            old(self).wf(),
        ensures
            final(self).wf(),
            final(self).conns() == old(self).conns(),
            final(self).buf() == old(self).buf(),
            final(self).spec_round_min() == old(self).buf().len,
            final(self).spec_round_done() == Set::<usize>::empty(),
            final(self).round_inv(),
    {
        self.round_min = self.output_buffer.len();
        self.round_done = Ghost(Set::empty());
        proof {
            assert forall|i: usize| self.conns().dom().contains(i) implies (
            #[trigger] self.conns()[i]).cursor_spec().wf() && self.conns()[i].cursor_spec().capacity
                == self.buf().cursor.capacity by {
                assert(old(self).conns().dom().contains(i));
            }
        }
    }

    /// The least write progress recorded so far in the current round.
    pub fn round_min(&self) -> (r: usize)
        ensures
            r == self.spec_round_min(),
    {
        self.round_min
    }

    /// Record the outcome of one connection's write attempt, folding it into
    /// the round minimum.  A successful write advances that connection's
    /// cursor and lowers the minimum to the written count; a sink that would
    /// block pins the minimum at zero, so the round reclaims nothing and no
    /// unacknowledged byte is lost; a broken pipe removes the connection
    /// alone and leaves the minimum as it was.
    pub fn apply_write_outcome(&mut self, id: usize, outcome: WriteOutcome) -> (m: usize)
        requires
            old(self).wf(),
            old(self).round_inv(),
            old(self).conns().dom().contains(id),
            outcome matches WriteOutcome::Wrote(k) ==> 1 <= k <= old(self).pending(id),
        ensures
            final(self).wf(),
            final(self).round_inv(),
            final(self).buf() == old(self).buf(),
            final(self).spec_round_done() == old(self).spec_round_done().insert(id),
            m == final(self).spec_round_min(),
            match outcome {
                WriteOutcome::Wrote(k) => {
                    &&& final(self).conns() == old(self).conns().insert(
                        id,
                        old(self).conns()[id].with_cursor(
                            old(self).conns()[id].cursor_spec().spec_add(k as int),
                        ),
                    )
                    &&& final(self).spec_round_min() == if k < old(self).spec_round_min() {
                        k as int
                    } else {
                        old(self).spec_round_min()
                    }
                },
                WriteOutcome::WouldBlock => {
                    &&& final(self).conns() == old(self).conns()
                    &&& final(self).spec_round_min() == 0
                },
                WriteOutcome::BrokenPipe => {
                    &&& final(self).conns() == old(self).conns().remove(id)
                    &&& final(self).spec_round_min() == old(self).spec_round_min()
                },
            },
    {
        let ghost pre = *old(self);
        let m = match outcome {
            WriteOutcome::Wrote(k) => {
                let mut conn = slab_get(&self.connections, id).unwrap();
                let cur = conn.cursor_mut();
                let c0 = *cur;
                *cur = c0.add(k);
                slab_set(&mut self.connections, id, conn);
                if k < self.round_min {
                    self.round_min = k;
                }
                self.round_min
            },
            WriteOutcome::WouldBlock => {
                self.round_min = 0;
                0
            },
            WriteOutcome::BrokenPipe => {
                slab_remove(&mut self.connections, id);
                self.round_min
            },
        };
        self.round_done = Ghost(self.round_done@.insert(id));
        proof {
            assert forall|i: usize| self.conns().dom().contains(i) implies (
            #[trigger] self.conns()[i]).cursor_spec().wf() && self.conns()[i].cursor_spec().capacity
                == self.buf().cursor.capacity by {
                assert(pre.conns().dom().contains(i));
                if i != id {
                    assert(self.conns()[i] == pre.conns()[i]);
                }
            }
            let b = pre.buf();
            if let WriteOutcome::Wrote(k) = outcome {
                let c = pre.conns()[id].cursor_spec().inner as int;
                let j = b.offset_of(c);
                lemma_valid_cursor_offset(b, c);
                assert(b.valid_cursor(c));
                assert(pre.pending(id) == b.len - j);
                let c2 = self.conns()[id].cursor_spec().inner as int;
                lemma_mod_two_ranges(c + k, b.capacity());
                assert(b.offset_of(c2) == if j + k < b.capacity() {
                    j + k
                } else {
                    0
                });
            }
            assert forall|i: usize|
                self.conns().dom().contains(i) && self.spec_round_done().contains(i) implies self
                .spec_round_min() <= self.buf().offset_of(
                (#[trigger] self.conns()[i]).cursor_spec().inner as int,
            ) || self.buf().offset_of(self.conns()[i].cursor_spec().inner as int) == 0 by {
                assert(pre.conns().dom().contains(i));
                if i != id {
                    assert(self.conns()[i] == pre.conns()[i]);
                    assert(pre.spec_round_done().contains(i));
                }
            }
        }
        m
    }

    /// Close a write round: every connection recorded this round has
    /// consumed at least the round minimum of the oldest bytes, so exactly
    /// that many are reclaimed; a minimum of zero reclaims nothing and
    /// reports no progress.  The tail never advances past a recorded or
    /// caught-up reader: each such connection reads exactly the same bytes
    /// after the round as before it.  The one position this cannot promise
    /// is a cursor standing at `start` (offset zero), where a full buffer
    /// makes `start` and `end` coincide.
    pub fn finish_write_round(&mut self) -> (progress: bool)
        requires
            old(self).wf(),
            old(self).round_inv(),
        ensures
            final(self).wf(),
            final(self).conns() == old(self).conns(),
            progress == (old(self).spec_round_min() > 0),
            old(self).spec_round_min() > 0 ==> final(self).buf() == old(self).buf().spec_remove(
                old(self).spec_round_min(),
            ),
            old(self).spec_round_min() == 0 ==> final(self).buf() == old(self).buf(),
            forall|id: usize|
                (#[trigger] final(self).conns().dom().contains(id)) && (old(
                    self,
                ).spec_round_done().contains(id) || !old(self).buf().valid_cursor(
                    old(self).conns()[id].cursor_spec().inner as int,
                )) && (old(self).spec_round_min() == 0 || old(self).buf().offset_of(
                    old(self).conns()[id].cursor_spec().inner as int,
                ) > 0) ==> final(self).buf().readable_from(
                    final(self).conns()[id].cursor_spec().inner as int,
                ) == old(self).buf().readable_from(old(self).conns()[id].cursor_spec().inner as int),
    {
        let ghost pre = *old(self);
        let progress = if self.round_min > 0 {
            let n = self.round_min;
            self.output_buffer.remove(n);
            true
        } else {
            false
        };
        proof {
            assert forall|i: usize| self.conns().dom().contains(i) implies (
            #[trigger] self.conns()[i]).cursor_spec().wf() && self.conns()[i].cursor_spec().capacity
                == self.buf().cursor.capacity by {
                assert(pre.conns().dom().contains(i));
            }
            let b = pre.buf();
            let min = pre.spec_round_min();
            assert forall|id: usize|
                (#[trigger] self.conns().dom().contains(id)) && (pre.spec_round_done().contains(id)
                    || !b.valid_cursor(pre.conns()[id].cursor_spec().inner as int)) && (min == 0
                    || b.offset_of(pre.conns()[id].cursor_spec().inner as int)
                    > 0) implies self.buf().readable_from(
                self.conns()[id].cursor_spec().inner as int,
            ) == b.readable_from(pre.conns()[id].cursor_spec().inner as int) by {
                let c = pre.conns()[id].cursor_spec().inner as int;
                assert(pre.conns().dom().contains(id));
                assert(pre.conns()[id].cursor_spec().wf());
                if min > 0 {
                    lemma_valid_cursor_offset(b, c);
                    lemma_remove_preserves_reader(b, pre.round_min, c);
                }
            }
        }
        progress
    }

    /// The free capacity as two runs for the producer to read into; both
    /// empty exactly when the buffer is full, which is what stops the
    /// producer while the slowest consumer catches up.
    pub fn unused_regions(&self) -> (r: (Region, Region))
        requires
            self.wf(),
        ensures
            r.0.offset == self.buf().end_index(),
            r.1.offset == 0,
            r.0.offset + r.0.len <= self.buf().capacity(),
            r.0.len + r.1.len == self.buf().capacity() - self.buf().len,
            self.buf().len == 0 || self.buf().end_index() > self.buf().cursor.inner ==> r.0.len
                == self.buf().capacity() - self.buf().end_index() && r.1.len
                == self.buf().cursor.inner,
            self.buf().len != 0 && self.buf().end_index() <= self.buf().cursor.inner ==> r.0.len
                == self.buf().cursor.inner - self.buf().end_index() && r.1.len == 0,
    {
        self.output_buffer.unused_slices()
    }

    /// Fill free bytes `[offset, offset + bytes.len())` of the buffer with
    /// bytes the producer just read, without committing them.
    pub fn write_free(&mut self, offset: usize, bytes: &[u8])
        requires
            old(self).wf(),
            offset + bytes@.len() <= old(self).buf().capacity() - old(self).buf().len,
        ensures
            final(self).wf(),
            final(self).conns() == old(self).conns(),
            final(self).buf().cursor == old(self).buf().cursor,
            final(self).buf().len == old(self).buf().len,
            final(self).buf().capacity() == old(self).buf().capacity(),
            final(self).buf().contents() == old(self).buf().contents(),
            final(self).buf().free_seq() == old(self).buf().free_seq().take(offset as int)
                + bytes@ + old(self).buf().free_seq().skip(offset + bytes@.len()),
    {
        self.output_buffer.write_free(offset, bytes);
        proof {
            assert forall|i: usize| self.conns().dom().contains(i) implies (
            #[trigger] self.conns()[i]).cursor_spec().wf() && self.conns()[i].cursor_spec().capacity
                == self.buf().cursor.capacity by {
                assert(old(self).conns().dom().contains(i));
            }
        }
    }

    /// Commit `n` bytes the producer has just filled into the free runs, in
    /// order: they become the newest valid bytes, visible to every cursor.
    pub fn commit_read(&mut self, n: usize)
        requires
            old(self).wf(),
        ensures
            final(self).wf(),
            final(self).conns() == old(self).conns(),
            final(self).buf() == old(self).buf().spec_assume_init(n as int),
            final(self).buf().contents() == old(self).buf().contents() + old(
                self,
            ).buf().free_seq().take(final(self).buf().len - old(self).buf().len),
    {
        self.output_buffer.assume_init(n);
        proof {
            assert forall|i: usize| self.conns().dom().contains(i) implies (
            #[trigger] self.conns()[i]).cursor_spec().wf() && self.conns()[i].cursor_spec().capacity
                == self.buf().cursor.capacity by {
                assert(old(self).conns().dom().contains(i));
            }
        }
    }
}

} // verus!
