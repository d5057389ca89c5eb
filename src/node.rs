//! A compact send buffer: one slot per identifier modulo `BUFF_SIZE`, every slot
//! always holding an entry, and a flag per entry for "ready to be sent".
use vstd::prelude::*;
use crate::entry::{digest, total_hash, payload_bytes};
use crate::graph::{predecessors, successors, successor_ids, predecessor_ids, lemma_graph_inverse, lemma_degree, lemma_successors_distinct, is_id};
use crate::buffer::{next_cursor, follows};
use crate::{Error, PktHash, Signature};

verus! {

/// Number of slots: `a * p + 1` for a = 3, p = 5.
pub const BUFF_SIZE: usize = 16;

/// A packet as the compact send buffer holds it.
#[derive(Debug, PartialEq, Eq)]
pub struct SendBufferEntry {
    /// Predecessor hashes, in the order they arrived.
    pub hashes: Vec<PktHash>,
    /// Optional digital signature.
    pub signature: Option<Signature>,
    /// Packet identifier.
    pub id: u64,
    /// Packet payload.
    pub payload: Option<Vec<u8>>,
    /// Identifiers of the predecessors of `id`.
    pub dependencies: Vec<u64>,
    /// Whether the packet is ready to be sent on the wire.
    pub ready: bool,
}

impl SendBufferEntry {
    /// The entry's own invariant: cached predecessors, and no more hashes than them.
    pub open spec fn wf(&self) -> bool {
        &&& self.dependencies@ == predecessors(self.id)
        &&& self.hashes.len() <= self.dependencies.len()
    }

    /// A fresh entry: no hashes, no signature, no payload, not ready.
    pub fn new_id(id: u64) -> (r: Self)
        ensures
            r.id == id,
            r.hashes@.len() == 0,
            r.signature is None,
            r.payload is None,
            r.dependencies@ == predecessors(id),
            !r.ready,
            r.wf(),
    {
        SendBufferEntry {
            hashes: Vec::new(),
            signature: None,
            id,
            payload: None,
            dependencies: Self::dependencies_in(id),
            ready: false,
        }
    }

    /// A fresh entry that carries `payload`.
    pub fn new(id: u64, payload: Vec<u8>) -> (r: Self)
        ensures
            r.id == id,
            r.hashes@.len() == 0,
            r.signature is None,
            r.payload == Some(payload),
            r.dependencies@ == predecessors(id),
            !r.ready,
            r.wf(),
    {
        let mut out = Self::new_id(id);
        out.payload = Some(payload);
        out
    }

    /// Identifiers of the packets that must receive this packet's hash.
    pub fn dependencies_out(&self) -> (r: Vec<u64>)
        ensures
            r@ == successors(self.id),
    {
        successor_ids(self.id)
    }

    /// Identifiers of the packets whose hashes the packet `id` must carry.
    pub fn dependencies_in(id: u64) -> (r: Vec<u64>)
        ensures
            r@ == predecessors(id),
    {
        predecessor_ids(id)
    }

    /// Whether the packet is ready to be sent on the wire.
    pub fn ready(&self) -> (r: bool)
        ensures
            r == self.ready,
    {
        self.ready
    }

    /// Moves the contents out into a new, ready entry; this one keeps its identifier
    /// and its flag and is left with nothing else.
    pub fn take(&mut self) -> (r: SendBufferEntry)
        ensures
            r.id == old(self).id,
            r.payload == old(self).payload,
            r.hashes == old(self).hashes,
            r.signature == old(self).signature,
            r.dependencies == old(self).dependencies,
            r.ready,
            final(self).id == old(self).id,
            final(self).ready == old(self).ready,
            final(self).payload is None,
            final(self).hashes@.len() == 0,
            final(self).signature is None,
            final(self).dependencies@.len() == 0,
    {
        let payload = self.payload.take();
        let signature = self.signature.take();
        let mut hashes: Vec<PktHash> = Vec::new();
        std::mem::swap(&mut hashes, &mut self.hashes);
        let mut dependencies: Vec<u64> = Vec::new();
        std::mem::swap(&mut dependencies, &mut self.dependencies);
        SendBufferEntry { id: self.id, payload, hashes, signature, dependencies, ready: true }
    }

    /// Digest of the payload followed by each child hash in order.
    pub fn compute_total_hash(&self) -> (r: PktHash)
        ensures
            r@ == total_hash(payload_bytes(self.payload), self.hashes@),
    {
        digest(&self.payload, &self.hashes)
    }
}

/// `a` and `b` agree on everything but their hashes.
pub open spec fn same_but_hashes(a: SendBufferEntry, b: SendBufferEntry) -> bool {
    &&& a.id == b.id
    &&& a.signature == b.signature
    &&& a.payload == b.payload
    &&& a.dependencies == b.dependencies
    &&& a.ready == b.ready
}

/// `f` is a fresh entry for `id` but perhaps for its hashes.
pub open spec fn fresh_but_hashes(f: SendBufferEntry, id: int) -> bool {
    &&& f.id == id
    &&& f.signature is None
    &&& f.payload is None
    &&& f.dependencies@ == predecessors(id as u64)
    &&& !f.ready
}

/// A send buffer of `BUFF_SIZE` slots, each always holding an entry.
pub struct SendBuffer {
    buffer: Vec<SendBufferEntry>,
    lowest_id: u64,
    latest_id: u64,
    inserted: bool,
    next_node_id_hash: u64,
}

impl SendBuffer {
    /// The smallest identifier not yet popped.
    pub closed spec fn lowest(&self) -> int {
        self.lowest_id as int
    }

    /// The largest identifier inserted in sequence, if any was.
    pub closed spec fn latest(&self) -> Option<u64> {
        if self.inserted {
            Some(self.latest_id)
        } else {
            None
        }
    }

    /// The forwarding cursor.
    pub closed spec fn cursor(&self) -> u64 {
        self.next_node_id_hash
    }

    /// The slots.
    pub closed spec fn slots(&self) -> Seq<SendBufferEntry> {
        self.buffer@
    }

    /// Whether `id` lies in the window `[lowest, lowest + BUFF_SIZE)`.
    pub open spec fn in_window(&self, id: int) -> bool {
        self.lowest() <= id < self.lowest() + 16
    }

    /// The entry held for identifier `id`, if its slot holds that identifier.
    pub open spec fn entry_at(&self, id: int) -> Option<SendBufferEntry> {
        let e = self.slots()[id % 16];
        if e.id == id {
            Some(e)
        } else {
            None
        }
    }

    /// The hashes held for `s`; none when `s` is not held.
    pub open spec fn hashes_at(&self, s: int) -> Seq<PktHash> {
        if self.entry_at(s) is Some {
            self.entry_at(s)->Some_0.hashes@
        } else {
            Seq::<PktHash>::empty()
        }
    }

    /// `s` may take one more hash.
    pub open spec fn has_room(&self, s: int) -> bool {
        if self.entry_at(s) is Some {
            self.entry_at(s)->Some_0.hashes.len() < self.entry_at(s)->Some_0.dependencies.len()
        } else {
            predecessors(s as u64).len() > 0
        }
    }

    /// `f` is what `s` holds after one more hash `h`.
    pub open spec fn after_hash(&self, s: int, h: Seq<u8>, f: SendBufferEntry) -> bool {
        &&& f.hashes@.len() == self.hashes_at(s).len() + 1
        &&& f.hashes@.take(f.hashes@.len() - 1) == self.hashes_at(s)
        &&& f.hashes@.last()@ == h
        &&& self.entry_at(s) is Some ==> same_but_hashes(f, self.entry_at(s)->Some_0)
        &&& self.entry_at(s) is None ==> fresh_but_hashes(f, s)
    }

    /// The buffer's invariant.
    pub closed spec fn wf(&self) -> bool {
        &&& self.buffer@.len() == 16
        &&& forall|i: int| 0 <= i < 16 ==> {
            let e = #[trigger] self.buffer@[i];
            &&& e.id % 16 == i
            &&& e.id < self.lowest_id + 16
            &&& e.id < self.lowest_id ==> e.ready
            &&& e.id >= self.lowest_id ==> e.wf() && (e.ready ==> e.hashes.len() == e.dependencies.len())
        }
    }

    /// Facts of a well-formed buffer that its users may rely on.
    pub proof fn lemma_wf(&self)
        requires
            self.wf(),
        ensures
            self.slots().len() == 16,
            forall|j: int| #[trigger] self.entry_at(j) is Some && self.lowest() <= j ==> {
                &&& self.in_window(j)
                &&& self.entry_at(j)->Some_0.wf()
                &&& self.entry_at(j)->Some_0.ready ==> self.entry_at(j)->Some_0.hashes.len()
                    == predecessors(j as u64).len()
            },
            forall|j: int| #[trigger] self.entry_at(j) is Some && j < self.lowest() ==> self.entry_at(j)->Some_0.ready,
    {
    }

    proof fn lemma_slot_update(a: SendBuffer, b: SendBuffer, x: int)
        requires
            a.wf(),
            a.in_window(x),
            b.lowest() == a.lowest(),
            b.slots() == a.slots().update(x % 16, b.slots()[x % 16]),
            b.slots()[x % 16].id == x,
        ensures
            forall|j: int| j != x && a.in_window(j) ==> #[trigger] b.entry_at(j) == a.entry_at(j),
            b.entry_at(x) == Some(b.slots()[x % 16]),
    {
        assert forall|j: int| j != x && a.in_window(j) implies #[trigger] b.entry_at(j) == a.entry_at(j) by {
            if j % 16 == x % 16 {
                lemma_same_residue(j, x, a.lowest());
            }
        }
    }

    /// A new buffer whose slots hold fresh entries for 0 to `BUFF_SIZE - 1`.
    pub fn new() -> (r: Self)
        ensures
            r.wf(),
            r.lowest() == 0,
            r.latest() is None,
            r.cursor() == 3,
            forall|j: int| 0 <= j < 16 ==> {
                &&& #[trigger] r.entry_at(j) is Some
                &&& r.entry_at(j)->Some_0.hashes@.len() == 0
                &&& fresh_but_hashes(r.entry_at(j)->Some_0, j)
            },
    {
        let mut buffer: Vec<SendBufferEntry> = Vec::new();
        let mut i: usize = 0;
        while i < BUFF_SIZE
            invariant
                0 <= i <= 16,
                buffer@.len() == i,
                forall|k: int| 0 <= k < i ==> {
                    let e = #[trigger] buffer@[k];
                    &&& e.id == k
                    &&& e.hashes@.len() == 0
                    &&& fresh_but_hashes(e, k)
                    &&& e.wf()
                },
            decreases 16 - i,
        {
            buffer.push(SendBufferEntry::new_id(i as u64));
            i += 1;
        }
        SendBuffer { buffer, lowest_id: 0, latest_id: 0, inserted: false, next_node_id_hash: 3 }
    }

    /// The smallest identifier not yet popped.
    pub fn lowest_id(&self) -> (r: u64)
        ensures
            r == self.lowest(),
    {
        self.lowest_id
    }

    /// The entry held for `id`, if any.
    pub fn get(&self, id: u64) -> (r: Option<&SendBufferEntry>)
        requires
            self.wf(),
        ensures
            r is Some <==> self.entry_at(id as int) is Some,
            r matches Some(e) ==> *e == self.entry_at(id as int)->Some_0,
    {
        let e = &self.buffer[(id % 16) as usize];
        if e.id == id {
            Some(e)
        } else {
            None
        }
    }

    /// Makes sure the slot of `id`, which must lie in the window, holds `id`, with a
    /// fresh entry where it held another identifier.
    pub fn get_or_create(&mut self, id: u64) -> (r: Result<(), Error>)
        requires
            old(self).wf(),
        ensures
            final(self).wf(),
            final(self).lowest() == old(self).lowest(),
            final(self).latest() == old(self).latest(),
            final(self).cursor() == old(self).cursor(),
            !old(self).in_window(id as int) ==> r == Err::<(), Error>(Error::OutOfBoundId)
                && *final(self) == *old(self),
            old(self).in_window(id as int) ==> {
                &&& r is Ok
                &&& final(self).slots() == old(self).slots().update(id as int % 16, final(self).slots()[id as int % 16])
                &&& final(self).entry_at(id as int) is Some
                &&& old(self).entry_at(id as int) is Some ==> final(self).entry_at(id as int) == old(self).entry_at(id as int)
                &&& old(self).entry_at(id as int) is None ==> final(self).entry_at(id as int)->Some_0.hashes@.len() == 0
                    && fresh_but_hashes(final(self).entry_at(id as int)->Some_0, id as int)
            },
    {
        if id < self.lowest_id || id - self.lowest_id >= 16 {
            return Err(Error::OutOfBoundId);
        }
        let idx = (id % 16) as usize;
        if self.buffer[idx].id != id {
            self.buffer[idx] = SendBufferEntry::new_id(id);
        }
        assert(self.buffer@ == old(self).buffer@.update(idx as int, self.buffer@[idx as int]));
        Ok(())
    }

    /// Returns the cursor and moves it one step along the forwarding order.
    pub fn next_node_id_hash(&mut self) -> (r: u64)
        requires
            old(self).wf(),
        ensures
            final(self).wf(),
            r == old(self).cursor(),
            final(self).cursor() == next_cursor(r),
            final(self).lowest() == old(self).lowest(),
            final(self).latest() == old(self).latest(),
            final(self).slots() == old(self).slots(),
    {
        let id = self.next_node_id_hash;
        let r = id % 5;
        self.next_node_id_hash = if r == 0 {
            id.saturating_add(8)
        } else if r == 1 || r == 3 {
            id.saturating_sub(1)
        } else if r == 2 {
            id.saturating_add(2)
        } else {
            id.saturating_sub(3)
        };
        id
    }
}

proof fn lemma_same_residue(j: int, x: int, lo: int)
    requires
        lo <= j < lo + 16,
        lo <= x < lo + 16,
        j % 16 == x % 16,
    ensures
        j == x,
{
}

/// `r` is what popping identifier `id` from `b` handed out: the ready entry held for
/// `id`, with all its predecessor hashes.
pub open spec fn popped_from(b: SendBuffer, id: int, r: SendBufferEntry) -> bool {
    let o = b.entry_at(id)->Some_0;
    &&& b.entry_at(id) is Some
    &&& o.ready
    &&& r.id == id
    &&& r.payload == o.payload
    &&& r.hashes == o.hashes
    &&& r.signature == o.signature
    &&& r.dependencies == o.dependencies
    &&& r.ready
    &&& r.hashes@.len() == predecessors(r.id).len()
}

impl SendBuffer {
    /// Adds the next packet of the stream: `id` must follow the latest one inserted
    /// (or be 0 when none was) and lie in the window. Only the payload is taken.
    pub fn insert_in_sequence(&mut self, node: SendBufferEntry) -> (r: Result<(), Error>)
        requires
            old(self).wf(),
        ensures
            final(self).wf(),
            !old(self).in_window(node.id as int) ==> r == Err::<(), Error>(Error::OutOfBoundId)
                && *final(self) == *old(self),
            old(self).in_window(node.id as int) && !follows(old(self).latest(), node.id)
                ==> r == Err::<(), Error>(Error::IllegalInsert) && *final(self) == *old(self),
            old(self).in_window(node.id as int) && follows(old(self).latest(), node.id) ==> {
                let e = final(self).entry_at(node.id as int)->Some_0;
                &&& r is Ok
                &&& final(self).latest() == Some(node.id)
                &&& final(self).lowest() == old(self).lowest()
                &&& final(self).cursor() == old(self).cursor()
                &&& final(self).entry_at(node.id as int) is Some
                &&& e.payload == node.payload
                &&& old(self).entry_at(node.id as int) matches Some(o) ==> {
                    &&& e.hashes == o.hashes
                    &&& e.signature == o.signature
                    &&& e.dependencies == o.dependencies
                    &&& e.ready == o.ready
                }
                &&& old(self).entry_at(node.id as int) is None ==> {
                    &&& e.hashes@.len() == 0
                    &&& e.signature is None
                    &&& e.dependencies@ == predecessors(node.id)
                    &&& !e.ready
                }
                &&& forall|j: int| j != node.id && old(self).in_window(j)
                    ==> #[trigger] final(self).entry_at(j) == old(self).entry_at(j)
            },
    {
        let id = node.id;
        if id < self.lowest_id || id - self.lowest_id >= 16 {
            return Err(Error::OutOfBoundId);
        }
        let in_order = if self.inserted {
            id > 0 && id - 1 == self.latest_id
        } else {
            id == 0
        };
        if !in_order {
            return Err(Error::IllegalInsert);
        }
        let ghost start = *self;
        let _ = self.get_or_create(id);
        let idx = (id % 16) as usize;
        self.buffer[idx].payload = node.payload;
        self.latest_id = id;
        self.inserted = true;
        proof {
            assert(self.buffer@ == start.buffer@.update(idx as int, self.buffer@[idx as int]));
            SendBuffer::lemma_slot_update(start, *self, id as int);
        }
        Ok(())
    }

    /// Appends `h` to the hashes held for `s`, creating its entry first if needed.
    fn push_hash(&mut self, s: u64, h: PktHash)
        requires
            old(self).wf(),
            old(self).in_window(s as int),
            old(self).has_room(s as int),
        ensures
            final(self).wf(),
            final(self).lowest() == old(self).lowest(),
            final(self).latest() == old(self).latest(),
            final(self).cursor() == old(self).cursor(),
            final(self).slots() == old(self).slots().update(s as int % 16, final(self).slots()[s as int % 16]),
            final(self).entry_at(s as int) is Some,
            old(self).after_hash(s as int, h@, final(self).entry_at(s as int)->Some_0),
            forall|j: int| j != s && old(self).in_window(j) ==> #[trigger] final(self).entry_at(j) == old(self).entry_at(j),
    {
        let ghost start = *self;
        let _ = self.get_or_create(s);
        let idx = (s % 16) as usize;
        let ghost e0 = self.buffer@[idx as int];
        assert(e0.hashes@ == start.hashes_at(s as int));
        self.buffer[idx].hashes.push(h);
        proof {
            let f = self.buffer@[idx as int];
            assert(f.hashes@.take(f.hashes@.len() - 1) =~= e0.hashes@);
            assert(self.buffer@ == start.buffer@.update(idx as int, self.buffer@[idx as int]));
            SendBuffer::lemma_slot_update(start, *self, s as int);
        }
    }

    /// Forwards the total hash of `id` to its successors and marks it ready. Nothing
    /// changes on an error, nor when the slot of `id` is already ready.
    pub fn forwards_hash(&mut self, id: u64) -> (r: Result<(), Error>)
        requires
            old(self).wf(),
        ensures
            final(self).wf(),
            final(self).lowest() == old(self).lowest(),
            final(self).latest() == old(self).latest(),
            final(self).cursor() == old(self).cursor(),
            ({
                let e = old(self).slots()[id as int % 16];
                let ss = successors(id);
                let h = total_hash(payload_bytes(e.payload), e.hashes@);
                &&& e.ready ==> r is Ok && *final(self) == *old(self)
                &&& !e.ready && e.id != id ==> r == Err::<(), Error>(Error::OutOfBoundId) && *final(self) == *old(self)
                &&& !e.ready && e.id == id && e.hashes.len() != e.dependencies.len()
                    ==> r == Err::<(), Error>(Error::MissingHash) && *final(self) == *old(self)
                &&& !e.ready && e.id == id && e.hashes.len() == e.dependencies.len() ==> {
                    &&& (exists|k: int| 0 <= k < ss.len() && !old(self).in_window(#[trigger] ss[k] as int))
                        ==> r == Err::<(), Error>(Error::OutOfBoundId) && *final(self) == *old(self)
                    &&& (forall|k: int| 0 <= k < ss.len() ==> old(self).in_window(#[trigger] ss[k] as int))
                        && (exists|k: int| 0 <= k < ss.len() && !old(self).has_room(#[trigger] ss[k] as int))
                        ==> r == Err::<(), Error>(Error::IllegalInsert) && *final(self) == *old(self)
                    &&& (forall|k: int| 0 <= k < ss.len() ==> old(self).in_window(#[trigger] ss[k] as int)
                            && old(self).has_room(ss[k] as int)) ==> {
                        &&& r is Ok
                        &&& final(self).entry_at(id as int) is Some
                        &&& final(self).entry_at(id as int)->Some_0.ready
                        &&& final(self).entry_at(id as int)->Some_0.hashes == e.hashes
                        &&& final(self).entry_at(id as int)->Some_0.payload == e.payload
                        &&& forall|k: int| 0 <= k < ss.len() ==> #[trigger] final(self).entry_at(ss[k] as int) is Some
                            && old(self).after_hash(ss[k] as int, h, final(self).entry_at(ss[k] as int)->Some_0)
                        &&& forall|j: int| j != id && !ss.contains(j as u64) && is_id(j) && old(self).in_window(j)
                            ==> #[trigger] final(self).entry_at(j) == old(self).entry_at(j)
                    }
                }
            }),
    {
        let ghost start = *self;
        let idx = (id % 16) as usize;
        if self.buffer[idx].ready {
            return Ok(());
        }
        if self.buffer[idx].id != id {
            return Err(Error::OutOfBoundId);
        }
        if self.buffer[idx].dependencies.len() != self.buffer[idx].hashes.len() {
            return Err(Error::MissingHash);
        }
        assert(start.in_window(id as int));
        let succ = successor_ids(id);
        proof {
            lemma_degree(id);
            lemma_successors_distinct(id);
        }
        let mut k: usize = 0;
        while k < succ.len()
            invariant
                *self == start,
                self.wf(),
                start.in_window(id as int),
                !start.slots()[id as int % 16].ready,
                start.slots()[id as int % 16].id == id,
                start.slots()[id as int % 16].hashes.len() == start.slots()[id as int % 16].dependencies.len(),
                succ@ == successors(id),
                0 <= k <= succ@.len(),
                forall|m: int| 0 <= m < k ==> start.in_window(#[trigger] succ@[m] as int),
            decreases succ@.len() - k,
        {
            let s = succ[k];
            if s < self.lowest_id || s - self.lowest_id >= 16 {
                assert(!start.in_window(succ@[k as int] as int));
                return Err(Error::OutOfBoundId);
            }
            k += 1;
        }
        k = 0;
        while k < succ.len()
            invariant
                *self == start,
                self.wf(),
                start.in_window(id as int),
                !start.slots()[id as int % 16].ready,
                start.slots()[id as int % 16].id == id,
                start.slots()[id as int % 16].hashes.len() == start.slots()[id as int % 16].dependencies.len(),
                succ@ == successors(id),
                forall|m: int| 0 <= m < succ@.len() ==> start.in_window(#[trigger] succ@[m] as int),
                0 <= k <= succ@.len(),
                forall|m: int| 0 <= m < k ==> start.has_room(#[trigger] succ@[m] as int),
            decreases succ@.len() - k,
        {
            let s = succ[k];
            let f = &self.buffer[(s % 16) as usize];
            if f.id == s && f.hashes.len() >= f.dependencies.len() {
                assert(!start.has_room(succ@[k as int] as int));
                return Err(Error::IllegalInsert);
            }
            proof {
                lemma_graph_inverse(id, s);
                assert(successors(id).contains(s));
                assert(predecessors(s).contains(id));
            }
            k += 1;
        }
        let h = self.buffer[idx].compute_total_hash();
        self.buffer[idx].ready = true;
        let ghost mid = *self;
        proof {
            assert(self.buffer@ == start.buffer@.update(idx as int, self.buffer@[idx as int]));
            SendBuffer::lemma_slot_update(start, *self, id as int);
        }
        if succ.len() > 0 {
            assert(succ@[0] != id);
            self.push_hash(succ[0], h);
        }
        if succ.len() > 1 {
            assert(succ@[0] < succ@[1]);
            assert(succ@[1] != id);
            self.push_hash(succ[1], h);
        }
        proof {
            let ss = successors(id);
            assert forall|k: int| 0 <= k < ss.len() implies #[trigger] self.entry_at(ss[k] as int) is Some
                && start.after_hash(ss[k] as int, h@, self.entry_at(ss[k] as int)->Some_0) by {
                assert(ss[k] != id);
                assert(mid.entry_at(ss[k] as int) == start.entry_at(ss[k] as int));
                if ss.len() > 1 {
                    assert(ss[0] < ss[1]);
                }
            }
            assert forall|j: int| j != id && !ss.contains(j as u64) && is_id(j) && start.in_window(j)
                implies #[trigger] self.entry_at(j) == start.entry_at(j) by {
                if ss.len() > 0 {
                    assert(j != ss[0]);
                }
                if ss.len() > 1 {
                    assert(j != ss[1]);
                }
            }
        }
        Ok(())
    }

    /// Removes and returns, in order of identifier, the entries from `lowest` on while
    /// each is held and ready; `lowest` moves past each one. It stops at the first
    /// entry that is not, after `BUFF_SIZE` entries, or where `lowest` would pass the
    /// largest identifier.
    pub fn pop_ready_in_sequence(&mut self) -> (r: Vec<SendBufferEntry>)
        requires
            old(self).wf(),
        ensures
            final(self).wf(),
            r@.len() <= 16,
            final(self).lowest() == old(self).lowest() + r@.len(),
            forall|k: int| 0 <= k < r@.len() ==> popped_from(*old(self), old(self).lowest() + k, #[trigger] r@[k]),
            r@.len() < 16 && final(self).lowest() < u64::MAX ==> !(
                old(self).entry_at(final(self).lowest()) is Some
                && old(self).entry_at(final(self).lowest())->Some_0.ready),
            forall|j: int| final(self).in_window(j) && old(self).in_window(j)
                ==> #[trigger] final(self).entry_at(j) == old(self).entry_at(j),
            final(self).latest() == old(self).latest(),
            final(self).cursor() == old(self).cursor(),
    {
        let ghost start = *self;
        let mut out: Vec<SendBufferEntry> = Vec::new();
        let mut done = false;
        while out.len() < BUFF_SIZE && !done
            invariant
                self.wf(),
                out@.len() <= 16,
                self.lowest() == start.lowest() + out@.len(),
                self.latest() == start.latest(),
                self.cursor() == start.cursor(),
                forall|k: int| 0 <= k < out@.len() ==> popped_from(start, start.lowest() + k, #[trigger] out@[k]),
                forall|j: int| self.in_window(j) && start.in_window(j) ==> #[trigger] self.entry_at(j) == start.entry_at(j),
                done ==> self.lowest() == u64::MAX || !(start.entry_at(self.lowest()) is Some
                    && start.entry_at(self.lowest())->Some_0.ready),
            decreases 16 - out@.len(), (if done { 0int } else { 1int }),
        {
            if self.lowest_id == u64::MAX {
                done = true;
            } else {
                let low = self.lowest_id;
                let idx = (low % 16) as usize;
                let ready = self.buffer[idx].id == low && self.buffer[idx].ready;
                assert(self.in_window(low as int));
                if !ready {
                    assert(start.in_window(low as int) ==> self.entry_at(low as int) == start.entry_at(low as int));
                    done = true;
                } else {
                    let ghost before = *self;
                    assert(start.in_window(low as int));
                    assert(self.entry_at(low as int) == start.entry_at(low as int));
                    let e = self.buffer[idx].take();
                    assert(start.entry_at(low as int)->Some_0.wf());
                    assert(popped_from(start, low as int, e));
                    let ghost out0 = out@;
                    out.push(e);
                    assert forall|k: int| 0 <= k < out@.len() implies popped_from(start, start.lowest() + k, #[trigger] out@[k]) by {
                        if k < out0.len() {
                            assert(out@[k] == out0[k]);
                        }
                    }
                    self.lowest_id = low + 1;
                    assert forall|j: int| self.in_window(j) && start.in_window(j) implies #[trigger] self.entry_at(j) == start.entry_at(j) by {
                        assert(before.entry_at(j) == start.entry_at(j));
                        if j % 16 != idx as int {
                            assert(self.slots()[j % 16] == before.slots()[j % 16]);
                        }
                    }
                }
            }
        }
        out
    }
}

} // verus!
