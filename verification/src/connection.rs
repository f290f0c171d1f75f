//! Consumers of the shared buffer and the stable-id table that holds them.
//!
//! A connection is a private read cursor into the ring buffer, tagged with
//! the kind of sink its bytes go to: the server's own standard output, or a
//! peer accepted over the local socket.  The sink handles themselves belong
//! to the I/O runtime around the library; it pairs them with connections by
//! id.  The table is a `slab::Slab`: insertion returns a small stable id,
//! removal invalidates only that id, and ids are reused.

use vstd::prelude::*;

verus! {

use crate::ring_buffer::RingBufferCursor;

/// The read cursor of the consumer writing to the server's own stdout.
#[derive(Clone, Copy, Debug)]
pub struct StdioConnection {
    pub cursor: RingBufferCursor,
}

/// The read cursor of a consumer attached over the local domain socket.
#[derive(Clone, Copy, Debug)]
pub struct UnixConnection {
    pub cursor: RingBufferCursor,
}

/// One consumer of the shared buffer: its next unread position, tagged with
/// the kind of sink it drains to.
#[derive(Clone, Copy, Debug)]
pub enum Connection {
    Stdio(StdioConnection),
    Unix(UnixConnection),
}

impl Connection {
    pub open spec fn cursor_spec(self) -> RingBufferCursor {
        match self {
            Connection::Stdio(s) => s.cursor,
            Connection::Unix(u) => u.cursor,
        }
    }

    /// The same connection with its read cursor replaced.
    pub open spec fn with_cursor(self, c: RingBufferCursor) -> Connection {
        match self {
            Connection::Stdio(_) => Connection::Stdio(StdioConnection { cursor: c }),
            Connection::Unix(_) => Connection::Unix(UnixConnection { cursor: c }),
        }
    }

    /// This connection's next unread position.
    pub fn cursor(&self) -> (r: RingBufferCursor)
        ensures
            r == self.cursor_spec(),
    {
        match self {
            Connection::Stdio(s) => s.cursor,
            Connection::Unix(u) => u.cursor,
        }
    }

    /// Mutable access to this connection's read cursor.
    pub fn cursor_mut(&mut self) -> (r: &mut RingBufferCursor)
        ensures
            *r == old(self).cursor_spec(),
            *final(self) == old(self).with_cursor(*final(r)),
    {
        match self {
            Connection::Stdio(s) => &mut s.cursor,
            Connection::Unix(u) => &mut u.cursor,
        }
    }
}

#[verifier::external_type_specification]
#[verifier::external_body]
#[verifier::reject_recursive_types(T)]
pub struct ExSlab<T>(slab::Slab<T>);

/// What a connection table holds: the finite map from each occupied id to
/// the connection stored under it.
pub uninterp spec fn slab_entries(s: slab::Slab<Connection>) -> Map<usize, Connection>;

/// The id that the table's next insertion will use: slab's next vacant key,
/// which a fresh table sets to zero.
pub uninterp spec fn slab_next_key(s: slab::Slab<Connection>) -> usize;

/// The contents of a table with no entries.
pub open spec fn empty_table() -> Map<usize, Connection> {
    Map::empty()
}

/// A local (stdout) connection reading from position `c`.
pub open spec fn local_at(c: RingBufferCursor) -> Connection {
    Connection::Stdio(StdioConnection { cursor: c })
}

/// A remote (socket) connection reading from position `c`.
pub open spec fn remote_at(c: RingBufferCursor) -> Connection {
    Connection::Unix(UnixConnection { cursor: c })
}

/// Relies on slab::Slab::with_capacity: a freshly created slab holds no
/// entries and will hand out key zero first.
#[verifier::external_body]
pub(crate) fn slab_new() -> (r: slab::Slab<Connection>)
    ensures
        slab_entries(r) == empty_table(),
        slab_next_key(r) == 0,
{
    slab::Slab::with_capacity(1)
}

/// Relies on slab::Slab::insert: the value is stored under the next vacant
/// id, which is returned; no other entry moves.
#[verifier::external_body]
pub(crate) fn slab_insert(s: &mut slab::Slab<Connection>, v: Connection) -> (id: usize)
    ensures
        id == slab_next_key(*old(s)),
        !slab_entries(*old(s)).dom().contains(id),
        slab_entries(*final(s)) == slab_entries(*old(s)).insert(id, v),
{
    s.insert(v)
}

/// Relies on slab::Slab::remove: an occupied id is vacated and its value
/// returned; every other entry keeps its id and value.  The id must be
/// occupied, as the call panics on a vacant one.
#[verifier::external_body]
pub(crate) fn slab_remove(s: &mut slab::Slab<Connection>, id: usize) -> (r: Connection)
    requires
        slab_entries(*old(s)).dom().contains(id),
    ensures
        r == slab_entries(*old(s))[id],
        slab_entries(*final(s)) == slab_entries(*old(s)).remove(id),
{
    s.remove(id)
}

/// Relies on slab::Slab::get: it returns the value under an occupied id and
/// nothing under a vacant one.
#[verifier::external_body]
pub(crate) fn slab_get(s: &slab::Slab<Connection>, id: usize) -> (r: Option<Connection>)
    ensures
        r == if slab_entries(*s).dom().contains(id) {
            Some(slab_entries(*s)[id])
        } else {
            None::<Connection>
        },
{
    s.get(id).copied()
}

/// Relies on slab::Slab's IndexMut: assigning through it replaces the value
/// under an occupied id and touches nothing else.  The id must be occupied,
/// as indexing panics on a vacant one.
#[verifier::external_body]
pub(crate) fn slab_set(s: &mut slab::Slab<Connection>, id: usize, v: Connection)
    requires
        slab_entries(*old(s)).dom().contains(id),
    ensures
        slab_entries(*final(s)) == slab_entries(*old(s)).insert(id, v),
{
    s[id] = v;
}

/// Relies on slab::Slab::iter: it visits each occupied entry exactly once,
/// in increasing id order.
#[verifier::external_body]
pub(crate) fn slab_ids(s: &slab::Slab<Connection>) -> (r: Vec<usize>)
    ensures
        forall|i: int, j: int| 0 <= i < j < r@.len() ==> r@[i] < r@[j],
        forall|id: usize| #[trigger] r@.contains(id) <==> slab_entries(*s).dom().contains(id),
{
    s.iter().map(|e| e.0).collect()
}

} // verus!
