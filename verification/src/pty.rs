//! The output side of one detached terminal session: a bounded tail of what
//! the shell printed, and a backlog per attached client.
//!
//! Attaching takes the replay and registers the client in one step, so every
//! byte is either in the replay or still to come through the client's
//! backlog — never both, never neither, never out of order. A client that
//! stops reading is dropped once its backlog passes its cap: it must not stall
//! the pane nor grow without bound, and reconnecting replays the tail.
//! Blocking, locking and sockets are the caller's business; everything here
//! answers at once.

use vstd::prelude::*;
use std::collections::VecDeque;

use crate::seqs::{count_where, first_where, lemma_first_where_found, lemma_first_where_none};

verus! {

/// Recent output kept per session and replayed on attach (256 KiB).
pub const RING_BYTES: usize = 262144;

/// Undelivered output one client may pile up before it is dropped (4 MiB).
pub const CLIENT_BACKLOG_BYTES: usize = 4194304;

pub ghost struct RingV {
    pub bytes: Seq<u8>,
    pub truncated: bool,
}

/// The ring after `more` arrives: everything, cut to its last
/// `RING_BYTES`; cutting marks it truncated.
pub open spec fn ring_pushed(r: RingV, more: Seq<u8>) -> RingV {
    let all = r.bytes + more;
    if all.len() > RING_BYTES {
        RingV { bytes: all.subrange(all.len() - RING_BYTES, all.len() as int), truncated: true }
    } else {
        RingV { bytes: all, truncated: r.truncated }
    }
}

pub open spec fn newline() -> spec_fn(u8) -> bool {
    |b: u8| b == 10
}

/// The replay: once anything was cut, it starts just after the first
/// newline, the one byte that cannot sit inside an escape sequence or a
/// multibyte character.
pub open spec fn ring_snapshot(r: RingV) -> Seq<u8> {
    if r.truncated {
        match first_where(r.bytes, newline()) {
            Some(i) => r.bytes.subrange(i + 1, r.bytes.len() as int),
            None => r.bytes,
        }
    } else {
        r.bytes
    }
}

/// The bounded tail of a session's output.
pub struct Ring {
    buf: VecDeque<u8>,
    truncated: bool,
}

impl View for Ring {
    type V = RingV;

    closed spec fn view(&self) -> RingV {
        RingV { bytes: self.buf@, truncated: self.truncated }
    }
}

impl Ring {
    pub open spec fn wf(&self) -> bool {
        self@.bytes.len() <= RING_BYTES
    }

    pub fn new() -> (r: Ring)
        ensures
            r@ == (RingV { bytes: Seq::empty(), truncated: false }),
            r.wf(),
    {
        Ring { buf: VecDeque::new(), truncated: false }
    }

    pub fn push(&mut self, bytes: &[u8])
        requires
            old(self).wf(),
        ensures
            final(self).wf(),
            final(self)@ == ring_pushed(old(self)@, bytes@),
    {
        let ghost all = self@.bytes + bytes@;
        let mut k: usize = 0;
        while k < bytes.len()
            invariant
                k <= bytes@.len(),
                all == old(self)@.bytes + bytes@,
                self.buf@ == old(self)@.bytes + bytes@.take(k as int),
                self.truncated == old(self)@.truncated,
            decreases bytes@.len() - k,
        {
            self.buf.push_back(bytes[k]);
            assert(self.buf@ =~= old(self)@.bytes + bytes@.take(k + 1));
            k = k + 1;
        }
        assert(self.buf@ =~= all);
        if self.buf.len() > RING_BYTES {
            let ghost cut: int = all.len() - RING_BYTES;
            while self.buf.len() > RING_BYTES
                invariant
                    all.len() > RING_BYTES,
                    cut == all.len() - RING_BYTES,
                    self.buf@.len() >= RING_BYTES,
                    self.buf@.len() <= all.len(),
                    self.buf@ == all.subrange(all.len() - self.buf@.len(), all.len() as int),
                decreases self.buf@.len(),
            {
                let ghost before = self.buf@;
                let popped = self.buf.pop_front();
                proof {
                    assert(popped is Some);
                    assert(self.buf@ == before.subrange(1, before.len() as int));
                    assert(self.buf@ =~= all.subrange(all.len() - self.buf@.len(), all.len() as int));
                }
            }
            self.truncated = true;
        }
    }

    /// The replay handed to a newly attached client.
    pub fn snapshot(&self) -> (r: Vec<u8>)
        ensures
            r@ == ring_snapshot(self@),
    {
        let mut v: Vec<u8> = Vec::new();
        let mut first_nl: Option<usize> = None;
        let mut k: usize = 0;
        while k < self.buf.len()
            invariant
                k <= self.buf@.len(),
                v@ == self.buf@.take(k as int),
                match first_nl {
                    Some(i) => i < k && first_where(self.buf@, newline()) == Some(i as int),
                    None => forall|j: int| 0 <= j < k ==> !(#[trigger] newline()(self.buf@[j])),
                },
            decreases self.buf@.len() - k,
        {
            let b = self.buf[k];
            if first_nl.is_none() && b == 10 {
                proof {
                    lemma_first_where_found(self.buf@, newline(), k as int);
                }
                first_nl = Some(k);
            }
            v.push(b);
            assert(v@ =~= self.buf@.take(k + 1));
            k = k + 1;
        }
        assert(v@ =~= self.buf@);
        if !self.truncated {
            return v;
        }
        match first_nl {
            None => {
                proof {
                    lemma_first_where_none(self.buf@, newline());
                }
                v
            },
            Some(i) => {
                let mut out: Vec<u8> = Vec::new();
                let mut j: usize = i + 1;
                while j < v.len()
                    invariant
                        i + 1 <= j <= v@.len(),
                        out@ == v@.subrange(i + 1, j as int),
                    decreases v@.len() - j,
                {
                    out.push(v[j]);
                    assert(out@ =~= v@.subrange(i + 1, j + 1));
                    j = j + 1;
                }
                out
            },
        }
    }

    /// How many bytes the ring holds.
    pub fn len(&self) -> (r: usize)
        ensures
            r == self@.bytes.len(),
    {
        self.buf.len()
    }
}

/// The bytes of `chunks`, in order.
pub open spec fn flatten(chunks: Seq<Seq<u8>>) -> Seq<u8>
    decreases chunks.len(),
{
    if chunks.len() == 0 {
        Seq::empty()
    } else {
        flatten(chunks.drop_last()) + chunks.last()
    }
}

pub ghost struct BacklogV {
    pub chunks: Seq<Seq<u8>>,
    pub closed: bool,
}

/// The backlog after `more` is offered, and whether the client is still
/// being fed: a closed backlog takes nothing; one that would pass its cap
/// is closed instead.
pub open spec fn backlog_pushed(b: BacklogV, more: Seq<u8>) -> (BacklogV, bool) {
    if b.closed {
        (b, false)
    } else if flatten(b.chunks).len() + more.len() > CLIENT_BACKLOG_BYTES {
        (BacklogV { closed: true, ..b }, false)
    } else {
        (BacklogV { chunks: b.chunks.push(more), ..b }, true)
    }
}

/// One attached client's outbound backlog.
pub struct Backlog {
    chunks: VecDeque<Vec<u8>>,
    bytes: usize,
    closed: bool,
}

impl View for Backlog {
    type V = BacklogV;

    closed spec fn view(&self) -> BacklogV {
        BacklogV { chunks: self.chunks@.map_values(|c: Vec<u8>| c@), closed: self.closed }
    }
}

proof fn lemma_flatten_push(chunks: Seq<Seq<u8>>, c: Seq<u8>)
    ensures
        flatten(chunks.push(c)) == flatten(chunks) + c,
{
    assert(chunks.push(c).drop_last() =~= chunks);
}

proof fn lemma_flatten_pop_front(chunks: Seq<Seq<u8>>)
    requires
        chunks.len() > 0,
    ensures
        flatten(chunks) == chunks[0] + flatten(chunks.subrange(1, chunks.len() as int)),
    decreases chunks.len(),
{
    if chunks.len() == 1 {
        assert(chunks.subrange(1, 1) =~= Seq::<Seq<u8>>::empty());
        assert(chunks.drop_last() =~= Seq::<Seq<u8>>::empty());
        assert(chunks[0] + Seq::<u8>::empty() =~= chunks[0]);
        assert(Seq::<u8>::empty() + chunks[0] =~= chunks[0]);
    } else {
        lemma_flatten_pop_front(chunks.drop_last());
        let rest = chunks.subrange(1, chunks.len() as int);
        assert(rest.drop_last() =~= chunks.drop_last().subrange(1, chunks.len() - 1));
        assert(rest.last() == chunks.last());
        assert(flatten(rest) == flatten(rest.drop_last()) + rest.last());
        assert((chunks[0] + flatten(rest.drop_last())) + chunks.last() =~= chunks[0] + (flatten(
            rest.drop_last(),
        ) + chunks.last()));
    }
}

impl Backlog {
    pub open spec fn wf(&self) -> bool {
        flatten(self@.chunks).len() <= CLIENT_BACKLOG_BYTES
    }

    closed spec fn counted(&self) -> bool {
        self.bytes == flatten(self@.chunks).len()
    }

    fn new() -> (r: Backlog)
        ensures
            r@ == (BacklogV { chunks: Seq::empty(), closed: false }),
            r.wf(),
            r.counted(),
    {
        let r = Backlog { chunks: VecDeque::new(), bytes: 0, closed: false };
        assert(r@.chunks =~= Seq::<Seq<u8>>::empty());
        r
    }

    /// Offer `bytes`; `false` means this client is finished with.
    fn push(&mut self, bytes: &[u8]) -> (r: bool)
        requires
            old(self).wf(),
            old(self).counted(),
        ensures
            final(self).wf(),
            final(self).counted(),
            (final(self)@, r) == backlog_pushed(old(self)@, bytes@),
    {
        if self.closed {
            return false;
        }
        if bytes.len() > CLIENT_BACKLOG_BYTES - self.bytes {
            self.closed = true;
            return false;
        }
        self.bytes = self.bytes + bytes.len();
        let mut c: Vec<u8> = Vec::new();
        let mut k: usize = 0;
        while k < bytes.len()
            invariant
                k <= bytes@.len(),
                c@ == bytes@.take(k as int),
            decreases bytes@.len() - k,
        {
            c.push(bytes[k]);
            assert(c@ =~= bytes@.take(k + 1));
            k = k + 1;
        }
        assert(c@ =~= bytes@);
        let ghost old_chunks = self@.chunks;
        self.chunks.push_back(c);
        proof {
            assert(self@.chunks =~= old_chunks.push(bytes@));
            lemma_flatten_push(old_chunks, bytes@);
        }
        true
    }

    /// The oldest undelivered chunk, if any.
    fn next_chunk(&mut self) -> (r: Option<Vec<u8>>)
        requires
            old(self).wf(),
            old(self).counted(),
        ensures
            final(self).wf(),
            final(self).counted(),
            old(self)@.chunks.len() == 0 ==> r is None && final(self)@ == old(self)@,
            old(self)@.chunks.len() > 0 ==> (r matches Some(c) && c@ == old(self)@.chunks[0]
                && final(self)@ == BacklogV {
                chunks: old(self)@.chunks.subrange(1, old(self)@.chunks.len() as int),
                ..old(self)@
            }),
    {
        let ghost old_chunks = self@.chunks;
        match self.chunks.pop_front() {
            Some(c) => {
                proof {
                    assert(self@.chunks =~= old_chunks.subrange(1, old_chunks.len() as int));
                    lemma_flatten_pop_front(old_chunks);
                }
                self.bytes = self.bytes - c.len();
                Some(c)
            },
            None => None,
        }
    }

    fn close(&mut self)
        requires
            old(self).wf(),
            old(self).counted(),
        ensures
            final(self).wf(),
            final(self).counted(),
            final(self)@ == (BacklogV { closed: true, ..old(self)@ }),
    {
        self.closed = true;
    }
}

struct Client {
    handle: u64,
    backlog: Backlog,
    listening: bool,
}

pub ghost struct ClientV {
    pub handle: u64,
    pub backlog: BacklogV,
    pub listening: bool,
}

impl View for Client {
    type V = ClientV;

    closed spec fn view(&self) -> ClientV {
        ClientV { handle: self.handle, backlog: self.backlog@, listening: self.listening }
    }
}

pub ghost struct OutV {
    pub ring: RingV,
    pub clients: Seq<ClientV>,
    pub next_handle: u64,
}

pub open spec fn client_fed(c: ClientV, more: Seq<u8>) -> ClientV {
    if c.listening {
        let (b, fed) = backlog_pushed(c.backlog, more);
        ClientV { backlog: b, listening: fed, ..c }
    } else {
        c
    }
}

/// Output arriving: the ring takes it, and so does every client still
/// listening, each of which may be dropped at its cap.
pub open spec fn out_pushed(o: OutV, more: Seq<u8>) -> OutV {
    OutV {
        ring: ring_pushed(o.ring, more),
        clients: Seq::new(o.clients.len(), |i: int| client_fed(o.clients[i], more)),
        ..o
    }
}

/// The session over: every client still listening stops listening, and its
/// backlog is closed with what it still holds.
pub open spec fn all_closed(o: OutV) -> OutV {
    OutV {
        clients: Seq::new(
            o.clients.len(),
            |i: int|
                if o.clients[i].listening {
                    ClientV {
                        backlog: BacklogV { closed: true, ..o.clients[i].backlog },
                        listening: false,
                        ..o.clients[i]
                    }
                } else {
                    o.clients[i]
                },
        ),
        ..o
    }
}

/// A new client: listening, with nothing yet in its backlog.
pub open spec fn out_attached(o: OutV) -> OutV {
    OutV {
        clients: o.clients.push(
            ClientV {
                handle: o.next_handle,
                backlog: BacklogV { chunks: Seq::empty(), closed: false },
                listening: true,
            },
        ),
        next_handle: (o.next_handle + 1) as u64,
        ..o
    }
}

pub open spec fn has_handle(h: u64) -> spec_fn(ClientV) -> bool {
    |c: ClientV| c.handle == h
}

pub open spec fn listening() -> spec_fn(ClientV) -> bool {
    |c: ClientV| c.listening
}

pub open spec fn out_ok(o: OutV) -> bool {
    &&& o.ring.bytes.len() <= RING_BYTES
    &&& forall|i: int|
        0 <= i < o.clients.len() ==> flatten(#[trigger] o.clients[i].backlog.chunks).len()
            <= CLIENT_BACKLOG_BYTES
    &&& forall|i: int|
        0 <= i < o.clients.len() ==> ((#[trigger] o.clients[i]).listening
            <==> !o.clients[i].backlog.closed)
    &&& forall|i: int| 0 <= i < o.clients.len() ==> (#[trigger] o.clients[i]).handle < o.next_handle
    &&& forall|i: int, j: int|
        0 <= i < j < o.clients.len() ==> o.clients[i].handle != o.clients[j].handle
}

/// One read by client `handle`: its oldest unread chunk, which leaves its
/// queue; nothing when the queue is empty or the client is unknown.
pub open spec fn read_next(o: OutV, handle: u64) -> (Option<Seq<u8>>, OutV) {
    match first_where(o.clients, has_handle(handle)) {
        Some(i) => {
            let c = o.clients[i];
            if c.backlog.chunks.len() == 0 {
                (None, o)
            } else {
                (
                    Some(c.backlog.chunks[0]),
                    OutV {
                        clients: o.clients.update(
                            i,
                            ClientV {
                                backlog: BacklogV {
                                    chunks: c.backlog.chunks.subrange(1, c.backlog.chunks.len() as int),
                                    ..c.backlog
                                },
                                ..c
                            },
                        ),
                        ..o
                    },
                )
            }
        },
        None => (None, o),
    }
}

/// Client `handle` will get nothing more: it is unknown, or it stopped
/// listening and has read everything.
pub open spec fn reading_finished(o: OutV, handle: u64) -> bool {
    match first_where(o.clients, has_handle(handle)) {
        Some(i) => o.clients[i].backlog.closed && o.clients[i].backlog.chunks.len() == 0,
        None => true,
    }
}

/// `n` reads in a row by client `handle`: what came back, and the output
/// side after them.
pub open spec fn reads(o: OutV, handle: u64, n: nat) -> (Seq<Seq<u8>>, OutV)
    decreases n,
{
    if n == 0 {
        (Seq::empty(), o)
    } else {
        let (got, o1) = reads(o, handle, (n - 1) as nat);
        match read_next(o1, handle).0 {
            Some(x) => (got.push(x), read_next(o1, handle).1),
            None => (got, o1),
        }
    }
}

/// A session's output side: the ring and everyone attached to it.
pub struct Out {
    ring: Ring,
    clients: Vec<Client>,
    next_handle: u64,
}

impl View for Out {
    type V = OutV;

    closed spec fn view(&self) -> OutV {
        OutV {
            ring: self.ring@,
            clients: self.clients@.map_values(|c: Client| c@),
            next_handle: self.next_handle,
        }
    }
}

impl Out {
    /// The ring is bounded, every backlog is within its cap, a client's
    /// backlog is open exactly while it listens, and handles are unique and already issued.
    pub closed spec fn wf(&self) -> bool {
        &&& out_ok(self@)
        &&& self.ring.wf()
        &&& forall|i: int|
            0 <= i < self.clients@.len() ==> (#[trigger] self.clients@[i]).backlog.counted()
    }

    pub fn new() -> (r: Out)
        ensures
            r@ == (OutV {
                ring: RingV { bytes: Seq::empty(), truncated: false },
                clients: Seq::empty(),
                next_handle: 0,
            }),
            r.wf(),
    {
        let r = Out { ring: Ring::new(), clients: Vec::new(), next_handle: 0 };
        assert(r@.clients =~= Seq::<ClientV>::empty());
        r
    }

    /// Output arrived: into the ring, and to every client still listening.
    pub fn push(&mut self, bytes: &[u8])
        requires
            old(self).wf(),
        ensures
            final(self).wf(),
            final(self)@ == out_pushed(old(self)@, bytes@),
    {
        proof {
            assert forall|j: int| 0 <= j < self.clients@.len() implies (#[trigger] self.clients@[j]).backlog.wf() by {
                assert(self@.clients[j] == self.clients@[j]@);
                assert(flatten(self@.clients[j].backlog.chunks).len() <= CLIENT_BACKLOG_BYTES);
            }
        }
        self.ring.push(bytes);
        let ghost want = out_pushed(old(self)@, bytes@);
        let mut k: usize = 0;
        while k < self.clients.len()
            invariant
                k <= self.clients@.len(),
                self.clients@.len() == old(self)@.clients.len(),
                want == out_pushed(old(self)@, bytes@),
                self.ring@ == want.ring,
                self.ring.wf(),
                self.next_handle == old(self)@.next_handle,
                out_ok(old(self)@),
                forall|j: int| 0 <= j < k ==> (#[trigger] self.clients@[j])@ == want.clients[j],
                forall|j: int| k <= j < self.clients@.len() ==> (#[trigger] self.clients@[j])@ == old(self)@.clients[j],
                forall|j: int| 0 <= j < self.clients@.len() ==> (#[trigger] self.clients@[j]).backlog.counted(),
                forall|j: int| 0 <= j < self.clients@.len() ==> (#[trigger] self.clients@[j]).backlog.wf(),
            decreases self.clients@.len() - k,
        {
            let mut c = Client { handle: 0, backlog: Backlog::new(), listening: false };
            self.clients.set_and_swap(k, &mut c);
            if c.listening {
                let fed = c.backlog.push(bytes);
                c.listening = fed;
            }
            self.clients.set_and_swap(k, &mut c);
            k = k + 1;
        }
        assert(self@.clients =~= want.clients);
    }

    /// Take the replay and register a new client, in one step. Answers the
    /// replay and the client's handle.
    pub fn attach(&mut self) -> (r: (Vec<u8>, u64))
        requires
            old(self).wf(),
            old(self)@.next_handle < u64::MAX,
        ensures
            final(self).wf(),
            r.0@ == ring_snapshot(old(self)@.ring),
            r.1 == old(self)@.next_handle,
            final(self)@ == out_attached(old(self)@),
    {
        let replay = self.ring.snapshot();
        let h = self.next_handle;
        let c = Client { handle: h, backlog: Backlog::new(), listening: true };
        self.clients.push(c);
        self.next_handle = h + 1;
        assert(self@.clients =~= out_attached(old(self)@).clients);
        (replay, h)
    }

    fn find(&self, handle: u64) -> (r: Option<usize>)
        ensures
            match r {
                Some(k) => k < self@.clients.len() && first_where(self@.clients, has_handle(handle))
                    == Some(k as int),
                None => first_where(self@.clients, has_handle(handle)) is None,
            },
    {
        let mut k: usize = 0;
        while k < self.clients.len()
            invariant
                k <= self.clients@.len(),
                self@.clients.len() == self.clients@.len(),
                forall|j: int| 0 <= j < k ==> !(#[trigger] has_handle(handle)(self@.clients[j])),
            decreases self.clients@.len() - k,
        {
            if self.clients[k].handle == handle {
                proof {
                    lemma_first_where_found(self@.clients, has_handle(handle), k as int);
                }
                return Some(k);
            }
            k = k + 1;
        }
        proof {
            lemma_first_where_none(self@.clients, has_handle(handle));
        }
        None
    }

    /// This client is gone: it stops listening and what it had not read is
    /// dropped. The session itself is not touched.
    pub fn detach(&mut self, handle: u64)
        requires
            old(self).wf(),
        ensures
            final(self).wf(),
            match first_where(old(self)@.clients, has_handle(handle)) {
                Some(i) => final(self)@ == OutV { clients: old(self)@.clients.remove(i), ..old(self)@ },
                None => final(self)@ == old(self)@,
            },
    {
        match self.find(handle) {
            Some(k) => {
                let ghost before = self.clients@;
                let _ = self.clients.remove(k);
                assert(self@.clients =~= old(self)@.clients.remove(k as int));
                assert forall|i: int| 0 <= i < self.clients@.len() implies (#[trigger] self.clients@[i]).backlog.counted() by {
                    if i < k {
                        assert(self.clients@[i] == before[i]);
                    } else {
                        assert(self.clients@[i] == before[i + 1]);
                    }
                }
                assert(out_ok(self@)) by {
                    let o = old(self)@;
                    let n = self@;
                    assert forall|i: int| 0 <= i < n.clients.len() implies n.clients[i] == o.clients[if i < k { i } else { i + 1 }] by {}
                }
            },
            None => {},
        }
    }

    /// The session ended: every client still listening stops, and gets what
    /// it had not read before the end of the stream.
    pub fn close_all(&mut self)
        requires
            old(self).wf(),
        ensures
            final(self).wf(),
            final(self)@ == all_closed(old(self)@),
            final(self)@.ring == old(self)@.ring,
            final(self)@.next_handle == old(self)@.next_handle,
            final(self)@.clients.len() == old(self)@.clients.len(),
            forall|i: int|
                0 <= i < old(self)@.clients.len() ==> (#[trigger] final(self)@.clients[i]) == (if old(
                    self,
                )@.clients[i].listening {
                    ClientV {
                        backlog: BacklogV { closed: true, ..old(self)@.clients[i].backlog },
                        listening: false,
                        ..old(self)@.clients[i]
                    }
                } else {
                    old(self)@.clients[i]
                }),
    {
        proof {
            assert forall|j: int| 0 <= j < self.clients@.len() implies (#[trigger] self.clients@[j]).backlog.wf() by {
                assert(self@.clients[j] == self.clients@[j]@);
                assert(flatten(self@.clients[j].backlog.chunks).len() <= CLIENT_BACKLOG_BYTES);
            }
        }
        let mut k: usize = 0;
        while k < self.clients.len()
            invariant
                k <= self.clients@.len(),
                self.clients@.len() == old(self)@.clients.len(),
                self.ring@ == old(self)@.ring,
                self.ring.wf(),
                self.next_handle == old(self)@.next_handle,
                out_ok(old(self)@),
                forall|j: int| 0 <= j < k ==> (#[trigger] self.clients@[j])@ == (if old(self)@.clients[j].listening {
                    ClientV {
                        backlog: BacklogV { closed: true, ..old(self)@.clients[j].backlog },
                        listening: false,
                        ..old(self)@.clients[j]
                    }
                } else {
                    old(self)@.clients[j]
                }),
                forall|j: int| k <= j < self.clients@.len() ==> (#[trigger] self.clients@[j])@ == old(self)@.clients[j],
                forall|j: int| 0 <= j < self.clients@.len() ==> (#[trigger] self.clients@[j]).backlog.counted(),
                forall|j: int| 0 <= j < self.clients@.len() ==> (#[trigger] self.clients@[j]).backlog.wf(),
            decreases self.clients@.len() - k,
        {
            let mut c = Client { handle: 0, backlog: Backlog::new(), listening: false };
            self.clients.set_and_swap(k, &mut c);
            if c.listening {
                c.backlog.close();
                c.listening = false;
            }
            self.clients.set_and_swap(k, &mut c);
            k = k + 1;
        }
        assert(self@.clients =~= all_closed(old(self)@).clients) by {
            assert forall|j: int| 0 <= j < self@.clients.len() implies self@.clients[j]
                == all_closed(old(self)@).clients[j] by {
                assert(self@.clients[j] == self.clients@[j]@);
            }
        }
    }

    /// How many clients are still listening.
    pub fn listeners(&self) -> (r: usize)
        requires
            self.wf(),
        ensures
            r == count_where(self@.clients, listening()),
    {
        let mut n: usize = 0;
        let mut k: usize = 0;
        while k < self.clients.len()
            invariant
                k <= self.clients@.len(),
                self@.clients.len() == self.clients@.len(),
                n == crate::seqs::count_where(self@.clients.take(k as int), listening()),
                n <= k,
            decreases self.clients@.len() - k,
        {
            proof {
                crate::seqs::lemma_keep_push(self@.clients.take(k as int), listening(), self@.clients[k as int]);
                assert(self@.clients.take(k as int).push(self@.clients[k as int]) =~= self@.clients.take(k + 1));
            }
            if self.clients[k].listening {
                n = n + 1;
            }
            k = k + 1;
        }
        assert(self@.clients.take(k as int) =~= self@.clients);
        n
    }

    /// The oldest chunk this client has not read yet; `None` when there is
    /// nothing to read right now (see `is_finished`).
    pub fn next_chunk(&mut self, handle: u64) -> (r: Option<Vec<u8>>)
        requires
            old(self).wf(),
        ensures
            final(self).wf(),
            final(self)@ == read_next(old(self)@, handle).1,
            match r {
                Some(x) => read_next(old(self)@, handle).0 == Some(x@),
                None => read_next(old(self)@, handle).0 is None,
            },
    {
        match self.find(handle) {
            None => None,
            Some(k) => {
                let ghost before = self.clients@;
                let mut c = Client { handle: 0, backlog: Backlog::new(), listening: false };
                self.clients.set_and_swap(k, &mut c);
                let r = c.backlog.next_chunk();
                let ghost cc = c;
                self.clients.set_and_swap(k, &mut c);
                proof {
                    assert forall|i: int| 0 <= i < self.clients@.len() implies (#[trigger] self.clients@[i]).backlog.counted() by {
                        if i != k {
                            assert(self.clients@[i] == before[i]);
                        }
                    }
                    if old(self)@.clients[k as int].backlog.chunks.len() == 0 {
                        assert(self@.clients =~= old(self)@.clients);
                    } else {
                        assert(self@.clients =~= old(self)@.clients.update(k as int, cc@));
                    }
                }
                r
            },
        }
    }

    /// This client will get nothing more: it is unknown, or it stopped
    /// listening and has read everything.
    pub fn is_finished(&self, handle: u64) -> (r: bool)
        ensures
            r == reading_finished(self@, handle),
    {
        match self.find(handle) {
            None => true,
            Some(k) => self.clients[k].backlog.closed && self.clients[k].backlog.chunks.len() == 0,
        }
    }

    /// How many bytes the ring holds.
    pub fn ring_len(&self) -> (r: usize)
        ensures
            r == self@.ring.bytes.len(),
    {
        self.ring.len()
    }
}

// ---------- session ids ----------

/// Pane size used when a client does not say.
pub fn default_cols() -> (r: u16)
    ensures
        r == 80,
{
    80
}

pub fn default_rows() -> (r: u16)
    ensures
        r == 24,
{
    24
}

/// The next free session id as stored: ids start at 1, since 0 reads like
/// "unset" wherever a pane id travels in an environment variable; anything
/// missing, out of range or 0 starts over at 1.
pub fn load_next_id(stored: Option<u64>) -> (r: u32)
    ensures
        r == match stored {
            Some(n) => if 1 <= n <= u32::MAX {
                n as u32
            } else {
                1
            },
            None => 1,
        },
{
    match stored {
        Some(n) => if 1 <= n && n <= 0xffff_ffff {
            n as u32
        } else {
            1
        },
        None => 1,
    }
}

/// Hand out `next`, answering it and the id to persist after it; refused
/// once the id space is spent.
pub fn next_id(next: u32) -> (r: Result<(u32, u32), String>)
    ensures
        next < u32::MAX ==> r == Ok::<(u32, u32), String>((next, (next + 1) as u32)),
        next == u32::MAX ==> (r matches Err(m) && m@ == "session id space exhausted"@),
{
    match next.checked_add(1) {
        Some(following) => Ok((next, following)),
        None => Err(crate::text::owned("session id space exhausted")),
    }
}

/// Pane sizes are at least one cell each way.
pub fn clamp_size(cols: u16, rows: u16) -> (r: (u16, u16))
    ensures
        r.0 == if cols == 0 { 1 } else { cols },
        r.1 == if rows == 0 { 1 } else { rows },
{
    (if cols == 0 { 1 } else { cols }, if rows == 0 { 1 } else { rows })
}

/// Output arriving in `ps`, chunk by chunk.
pub open spec fn out_pushed_all(o: OutV, ps: Seq<Seq<u8>>) -> OutV
    decreases ps.len(),
{
    if ps.len() == 0 {
        o
    } else {
        out_pushed(out_pushed_all(o, ps.drop_last()), ps.last())
    }
}

proof fn lemma_client_after_pushes(o: OutV, ps: Seq<Seq<u8>>, k: int)
    requires
        0 <= k < o.clients.len(),
        o.clients[k].listening,
        o.clients[k].backlog == (BacklogV { chunks: Seq::empty(), closed: false }),
    ensures
        out_pushed_all(o, ps).clients.len() == o.clients.len(),
        out_pushed_all(o, ps).clients[k].listening ==> out_pushed_all(o, ps).clients[k].backlog.chunks
            == ps && flatten(ps).len() <= CLIENT_BACKLOG_BYTES,
    decreases ps.len(),
{
    if ps.len() > 0 {
        lemma_client_after_pushes(o, ps.drop_last(), k);
        let e0 = out_pushed_all(o, ps.drop_last());
        let e = out_pushed_all(o, ps);
        assert(e.clients[k] == client_fed(e0.clients[k], ps.last()));
        if e.clients[k].listening {
            assert(e0.clients[k].listening);
            lemma_flatten_push(ps.drop_last(), ps.last());
            assert(ps.drop_last().push(ps.last()) =~= ps);
        }
    }
}

/// The seam of an attach has no gap and no duplicate: the replay is what
/// the ring held at the attach, and while the client keeps up, its backlog
/// receives exactly the chunks pushed after it, in order. So for a ring
/// that was never cut, replay then live is everything, once.
pub proof fn the_attach_seam_splits_the_stream(o: OutV, ps: Seq<Seq<u8>>)
    ensures
        ({
            let e = out_pushed_all(out_attached(o), ps);
            let k = o.clients.len() as int;
            &&& e.clients[k].handle == o.next_handle
            &&& e.clients[k].listening ==> e.clients[k].backlog.chunks == ps
            &&& (e.clients[k].listening && !o.ring.truncated) ==> ring_snapshot(o.ring) + flatten(
                e.clients[k].backlog.chunks,
            ) == o.ring.bytes + flatten(ps)
        }),
{
    let a = out_attached(o);
    let k = o.clients.len() as int;
    lemma_client_after_pushes(a, ps, k);
    lemma_handle_kept(a, ps, k);
}

proof fn lemma_handle_kept(o: OutV, ps: Seq<Seq<u8>>, k: int)
    requires
        0 <= k < o.clients.len(),
    ensures
        out_pushed_all(o, ps).clients.len() == o.clients.len(),
        out_pushed_all(o, ps).clients[k].handle == o.clients[k].handle,
    decreases ps.len(),
{
    if ps.len() > 0 {
        lemma_handle_kept(o, ps.drop_last(), k);
    }
}

/// A client that never reads cannot hold the pane: once more than its cap
/// has been pushed since it attached, it is no longer listening.
pub proof fn a_stalled_client_is_dropped(o: OutV, ps: Seq<Seq<u8>>)
    requires
        flatten(ps).len() > CLIENT_BACKLOG_BYTES,
    ensures
        !out_pushed_all(out_attached(o), ps).clients[o.clients.len() as int].listening,
{
    lemma_client_after_pushes(out_attached(o), ps, o.clients.len() as int);
}


/// The client's queue after `n` of its chunks were read.
pub open spec fn queue_after(o: OutV, i: int, n: nat) -> OutV {
    let c = o.clients[i];
    OutV {
        clients: o.clients.update(
            i,
            ClientV {
                backlog: BacklogV { chunks: c.backlog.chunks.skip(n as int), ..c.backlog },
                ..c
            },
        ),
        ..o
    }
}

proof fn lemma_finds_client(o: OutV, p: OutV, i: int)
    requires
        out_ok(o),
        0 <= i < o.clients.len(),
        p.clients.len() == o.clients.len(),
        forall|j: int| 0 <= j < o.clients.len() ==> (#[trigger] p.clients[j]).handle == o.clients[j].handle,
    ensures
        first_where(p.clients, has_handle(o.clients[i].handle)) == Some(i),
{
    assert forall|j: int| 0 <= j < i implies !(#[trigger] has_handle(o.clients[i].handle)(p.clients[j])) by {
        assert(o.clients[j].handle != o.clients[i].handle);
    }
    lemma_first_where_found(p.clients, has_handle(o.clients[i].handle), i);
}

/// A reader gets what was queued for it, oldest first and each chunk once:
/// `n` reads answer the first `n` chunks and leave the rest queued. A read
/// answers nothing exactly when the queue is empty, and the stream is over
/// for the client exactly when it is closed and drained; an empty queue
/// that is still open is the one case where the reader waits.
pub proof fn a_reader_drains_its_queue_in_order(o: OutV, i: int, n: nat)
    requires
        out_ok(o),
        0 <= i < o.clients.len(),
        n <= o.clients[i].backlog.chunks.len(),
    ensures
        ({
            let h = o.clients[i].handle;
            let q = o.clients[i].backlog.chunks;
            &&& reads(o, h, n).0 == q.take(n as int)
            &&& reads(o, h, n).1 == queue_after(o, i, n)
            &&& (read_next(o, h).0 is None <==> q.len() == 0)
            &&& (reading_finished(o, h) <==> (q.len() == 0 && o.clients[i].backlog.closed))
        }),
    decreases n,
{
    let h = o.clients[i].handle;
    let q = o.clients[i].backlog.chunks;
    lemma_finds_client(o, o, i);
    if n > 0 {
        a_reader_drains_its_queue_in_order(o, i, (n - 1) as nat);
        let o1 = queue_after(o, i, (n - 1) as nat);
        assert(reads(o, h, (n - 1) as nat).1 == o1);
        lemma_finds_client(o, o1, i);
        assert(o1.clients[i].backlog.chunks =~= q.skip(n - 1));
        assert(read_next(o1, h).0 == Some(q[n - 1]));
        assert(read_next(o1, h).1 =~= queue_after(o, i, n)) by {
            assert(q.skip(n - 1).subrange(1, q.skip(n - 1).len() as int) =~= q.skip(n as int));
            assert(read_next(o1, h).1.clients =~= queue_after(o, i, n).clients);
        }
        assert(q.take(n as int) =~= q.take(n - 1).push(q[n - 1]));
    } else {
        assert(q.take(0) =~= Seq::<Seq<u8>>::empty());
        assert(o.clients.update(i, o.clients[i]) =~= o.clients);
        assert(q.skip(0) =~= q);
        assert(queue_after(o, i, 0).clients =~= o.clients);
    }
}

proof fn lemma_none_listening(cs: Seq<ClientV>)
    requires
        forall|j: int| 0 <= j < cs.len() ==> !(#[trigger] cs[j]).listening,
    ensures
        count_where(cs, listening()) == 0,
    decreases cs.len(),
{
    if cs.len() > 0 {
        assert forall|j: int| 0 <= j < cs.drop_last().len() implies !(#[trigger] cs.drop_last()[j]).listening by {
            assert(cs.drop_last()[j] == cs[j]);
        }
        lemma_none_listening(cs.drop_last());
        assert(!cs[cs.len() - 1].listening);
    }
}

/// When the session ends, nobody is listening any more; each client still
/// reads exactly what it had not yet read, oldest first, and then its stream
/// is over; later output reaches none of them, and the replay is untouched.
pub proof fn closing_ends_every_stream(o: OutV, i: int, more: Seq<u8>)
    requires
        out_ok(o),
        0 <= i < o.clients.len(),
    ensures
        ({
            let c = all_closed(o);
            let h = o.clients[i].handle;
            let q = o.clients[i].backlog.chunks;
            &&& count_where(c.clients, listening()) == 0
            &&& c.ring == o.ring
            &&& reads(c, h, q.len()).0 == q
            &&& reading_finished(reads(c, h, q.len()).1, h)
            &&& out_pushed(c, more).clients[i] == c.clients[i]
        }),
{
    let c = all_closed(o);
    let h = o.clients[i].handle;
    let q = o.clients[i].backlog.chunks;
    assert forall|j: int| 0 <= j < c.clients.len() implies !(#[trigger] c.clients[j]).listening by {}
    lemma_none_listening(c.clients);
    assert(out_ok(c)) by {
        assert forall|j: int| 0 <= j < c.clients.len() implies flatten(#[trigger] c.clients[j].backlog.chunks).len()
            <= CLIENT_BACKLOG_BYTES by {
            assert(c.clients[j].backlog.chunks == o.clients[j].backlog.chunks);
        }
        assert forall|j: int| 0 <= j < c.clients.len() implies (#[trigger] c.clients[j]).handle < c.next_handle by {
            assert(c.clients[j].handle == o.clients[j].handle);
        }
        assert forall|a: int, b: int| 0 <= a < b < c.clients.len() implies c.clients[a].handle
            != c.clients[b].handle by {
            assert(c.clients[a].handle == o.clients[a].handle);
            assert(c.clients[b].handle == o.clients[b].handle);
        }
    }
    assert(c.clients[i].handle == h);
    assert(c.clients[i].backlog.chunks == q);
    a_reader_drains_its_queue_in_order(c, i, q.len());
    let p = queue_after(c, i, q.len());
    lemma_finds_client(c, p, i);
    assert(q.skip(q.len() as int) =~= Seq::<Seq<u8>>::empty());
    assert(c.clients[i].backlog.closed);
}

} // verus!
