//! The ring buffer shared by the send and the receive pipelines.
use vstd::prelude::*;
use crate::entry::{BufferEntry, total_hash, payload_bytes, holds_hash};
use crate::graph::{predecessors, successors, successor_ids, predecessor_ids, lemma_graph_inverse, lemma_degree, lemma_successors_distinct, is_id};
use crate::{Error, PktHash, State};

verus! {

/// Number of slots: twice `a * p + 1` for a = 3, p = 5.
pub const BUFF_SIZE: usize = 32;

/// Where the forwarding cursor goes after `id`; it saturates at both ends.
pub open spec fn next_cursor(id: u64) -> u64 {
    let r = id % 5;
    if r == 0 {
        if id + 8 <= u64::MAX { (id + 8) as u64 } else { u64::MAX }
    } else if r == 1 || r == 3 {
        if id >= 1 { (id - 1) as u64 } else { 0 }
    } else if r == 2 {
        if id + 2 <= u64::MAX { (id + 2) as u64 } else { u64::MAX }
    } else {
        if id >= 3 { (id - 3) as u64 } else { 0 }
    }
}

/// A fresh entry for `id`: no hashes, no signature, no payload, `NotReady`.
pub open spec fn is_fresh(e: BufferEntry, id: int) -> bool {
    &&& e.id == id
    &&& e.hashes@.len() == 0
    &&& e.signature is None
    &&& e.payload is None
    &&& e.dependencies@ == predecessors(id as u64)
    &&& e.state == State::NotReady
}

/// `a` and `b` agree on everything but their hashes.
pub open spec fn same_but_hashes(a: BufferEntry, b: BufferEntry) -> bool {
    &&& a.id == b.id
    &&& a.signature == b.signature
    &&& a.payload == b.payload
    &&& a.dependencies == b.dependencies
    &&& a.state == b.state
}

/// `a` and `b` agree on everything but their payloads.
pub open spec fn same_but_payload(a: BufferEntry, b: BufferEntry) -> bool {
    &&& a.id == b.id
    &&& a.signature == b.signature
    &&& a.hashes == b.hashes
    &&& a.dependencies == b.dependencies
    &&& a.state == b.state
}

/// `a` and `b` agree on everything but their states.
pub open spec fn same_but_state(a: BufferEntry, b: BufferEntry) -> bool {
    &&& a.id == b.id
    &&& a.signature == b.signature
    &&& a.hashes == b.hashes
    &&& a.payload == b.payload
    &&& a.dependencies == b.dependencies
}

/// A state from which the receive pipeline may still move on.
pub open spec fn is_open(s: State) -> bool {
    s == State::NotReady || s == State::ReadySent
}

/// A ring buffer of entries indexed by identifier modulo `BUFF_SIZE`.
pub struct Buffer {
    buffer: Vec<Option<BufferEntry>>,
    lowest_id: u64,
    latest_id: u64,
    inserted: bool,
    next_node_id_hash: u64,
    state_to_pop: State,
}

impl Buffer {
    /// The smallest identifier still retained.
    pub closed spec fn lowest(&self) -> int {
        self.lowest_id as int
    }

    /// The largest identifier inserted in sequence, if any was.
    pub closed spec fn latest(&self) -> Option<u64> {
        if self.inserted {
            Some(self.latest_id)
        } else {
            None
        }
    }

    /// The forwarding cursor.
    pub closed spec fn cursor(&self) -> u64 {
        self.next_node_id_hash
    }

    /// The state that lets an entry leave the buffer.
    pub closed spec fn pop_state(&self) -> State {
        self.state_to_pop
    }

    /// The slots.
    pub closed spec fn slots(&self) -> Seq<Option<BufferEntry>> {
        self.buffer@
    }

    /// Whether `id` lies in the window `[lowest, lowest + BUFF_SIZE)`.
    pub open spec fn in_window(&self, id: int) -> bool {
        self.lowest() <= id < self.lowest() + 32
    }

    /// The entry held for identifier `id`, if its slot holds that identifier.
    pub open spec fn entry_at(&self, id: int) -> Option<BufferEntry> {
        let s = self.slots()[id as int % 32];
        if s is Some && s->Some_0.id == id {
            s
        } else {
            None
        }
    }

    /// Whether `id` is held and in the state that lets it leave the buffer.
    pub open spec fn ready_at(&self, id: int) -> bool {
        self.entry_at(id) is Some && self.entry_at(id)->Some_0.state == self.pop_state()
    }

    /// Whether `id` is held and authenticated.
    pub open spec fn auth_at(&self, id: int) -> bool {
        self.entry_at(id) is Some && self.entry_at(id)->Some_0.state == State::Authenticated
    }

    /// The buffer's invariant.
    pub closed spec fn wf(&self) -> bool {
        &&& self.buffer@.len() == 32
        &&& self.state_to_pop == State::ReadySent || self.state_to_pop == State::Authenticated
        &&& forall|i: int| 0 <= i < 32 && #[trigger] self.buffer@[i] is Some ==> {
            let e = self.buffer@[i]->Some_0;
            &&& e.wf()
            &&& e.id % 32 == i
            &&& self.lowest_id <= e.id < self.lowest_id + 32
            &&& e.state == State::ReadySent ==> e.hashes.len() == e.dependencies.len()
        }
    }

    /// The scalar fields of `a` and `b` agree.
    pub open spec fn same_scalars(a: Buffer, b: Buffer) -> bool {
        &&& a.lowest() == b.lowest()
        &&& a.latest() == b.latest()
        &&& a.cursor() == b.cursor()
        &&& a.pop_state() == b.pop_state()
    }

    /// Facts of a well-formed buffer that its users may rely on.
    pub proof fn lemma_wf(&self)
        requires
            self.wf(),
        ensures
            self.slots().len() == 32,
            self.pop_state() == State::ReadySent || self.pop_state() == State::Authenticated,
            forall|j: int| #[trigger] self.entry_at(j) is Some ==> self.in_window(j)
                && self.entry_at(j)->Some_0.wf(),
            forall|j: int| #[trigger] self.entry_at(j) is Some && self.entry_at(j)->Some_0.state == State::ReadySent
                ==> self.entry_at(j)->Some_0.hashes.len() == predecessors(j as u64).len(),
            forall|j: int| self.in_window(j) && #[trigger] self.entry_at(j) is None ==> self.slots()[j % 32] is None,
    {
        assert forall|j: int| self.in_window(j) && #[trigger] self.entry_at(j) is None implies self.slots()[j % 32] is None by {
            let i = j % 32;
            if self.buffer@[i] is Some {
                let e = self.buffer@[i]->Some_0;
                assert(e.id % 32 == j % 32);
                assert(e.id != j);
            }
        }
    }

    /// A new, empty buffer; a send buffer pops `ReadySent` entries, a receive buffer
    /// `Authenticated` ones.
    pub fn with_mode(is_send: bool) -> (r: Self)
        ensures
            r.wf(),
            r.lowest() == 0,
            r.latest() is None,
            r.cursor() == 3,
            r.pop_state() == (if is_send { State::ReadySent } else { State::Authenticated }),
            forall|j: int| #[trigger] r.entry_at(j) is None,
            is_send ==> r.send_wf(),
    {
        let mut buffer: Vec<Option<BufferEntry>> = Vec::new();
        let mut i: usize = 0;
        while i < BUFF_SIZE
            invariant
                0 <= i <= 32,
                buffer@.len() == i,
                forall|k: int| 0 <= k < i ==> buffer@[k] is None,
            decreases 32 - i,
        {
            buffer.push(None);
            i += 1;
        }
        Buffer {
            buffer,
            lowest_id: 0,
            latest_id: 0,
            inserted: false,
            next_node_id_hash: 3,
            state_to_pop: if is_send { State::ReadySent } else { State::Authenticated },
        }
    }

    /// The smallest identifier still retained.
    pub fn lowest_id(&self) -> (r: u64)
        ensures
            r == self.lowest(),
    {
        self.lowest_id
    }

    /// The entry held for `id`, if any.
    pub fn get(&self, id: u64) -> (r: Option<&BufferEntry>)
        requires
            self.wf(),
        ensures
            r is Some <==> self.entry_at(id as int) is Some,
            r matches Some(e) ==> *e == self.entry_at(id as int)->Some_0,
    {
        let idx = (id % 32) as usize;
        match &self.buffer[idx] {
            Some(e) => {
                if e.id == id {
                    Some(e)
                } else {
                    None
                }
            },
            None => None,
        }
    }

    /// Returns the cursor and moves it one step along the forwarding order.
    pub fn next_node_id_hash(&mut self) -> (r: u64)
        requires
            old(self).wf(),
        ensures
            final(self).wf(),
            r == old(self).cursor(),
            final(self).cursor() == next_cursor(r),
            final(self).lowest() == old(self).lowest(),
            final(self).latest() == old(self).latest(),
            final(self).pop_state() == old(self).pop_state(),
            final(self).slots() == old(self).slots(),
            old(self).send_wf() ==> final(self).send_wf(),
    {
        let ghost start = *self;
        let id = self.next_node_id_hash;
        let r = id % 5;
        self.next_node_id_hash = if r == 0 {
            id.saturating_add(8)
        } else if r == 1 || r == 3 {
            id.saturating_sub(1)
        } else if r == 2 {
            id.saturating_add(2)
        } else {
            id.saturating_sub(3)
        };
        proof {
            if start.send_wf() {
                assert forall|p: u64| #[trigger] handed_on(start, p) implies handed_on(*self, p) by {
                    assert(start.entry_at(p as int) == self.entry_at(p as int));
                }
                Buffer::lemma_send_kept(start, *self);
            }
        }
        id
    }
}

impl Buffer {
    /// Removes and returns, in order of identifier, the entries from `lowest` on while
    /// each is held and in the state that lets it leave; `lowest` moves past each one.
    /// It stops at the first gap or other state, after `BUFF_SIZE` entries, or where
    /// `lowest` would pass the largest identifier.
    pub fn pop_ready_in_sequence(&mut self) -> (r: Vec<BufferEntry>)
        requires
            old(self).wf(),
        ensures
            final(self).wf(),
            r@.len() <= 32,
            final(self).lowest() == old(self).lowest() + r@.len(),
            forall|k: int| 0 <= k < r@.len() ==> {
                &&& old(self).entry_at(old(self).lowest() + k) == Some(r@[k])
                &&& r@[k].id == old(self).lowest() + k
                &&& r@[k].state == old(self).pop_state()
            },
            r@.len() < 32 && final(self).lowest() < u64::MAX
                ==> !old(self).ready_at(final(self).lowest()),
            old(self).pop_state() == State::ReadySent ==> forall|k: int| 0 <= k < r@.len()
                ==> #[trigger] r@[k].hashes@.len() == predecessors(r@[k].id).len(),
            forall|j: int| final(self).lowest() <= j ==> #[trigger] final(self).entry_at(j) == old(self).entry_at(j),
            final(self).latest() == old(self).latest(),
            final(self).cursor() == old(self).cursor(),
            final(self).pop_state() == old(self).pop_state(),
            old(self).send_wf() ==> final(self).send_wf(),
    {
        let ghost start = *self;
        proof {
            start.lemma_wf();
        }
        let mut out: Vec<BufferEntry> = Vec::new();
        let mut done = false;
        while out.len() < BUFF_SIZE && !done
            invariant
                self.wf(),
                out@.len() <= 32,
                self.lowest() == start.lowest() + out@.len(),
                Buffer::same_scalars_but_lowest(start, *self),
                forall|k: int| 0 <= k < out@.len() ==> {
                    &&& start.entry_at(start.lowest() + k) == Some(out@[k])
                    &&& out@[k].id == start.lowest() + k
                    &&& out@[k].state == start.pop_state()
                },
                forall|j: int| self.lowest() <= j ==> #[trigger] self.entry_at(j) == start.entry_at(j),
                done ==> self.lowest() == u64::MAX || !start.ready_at(self.lowest()),
            decreases 32 - out@.len(), (if done { 0int } else { 1int }),
        {
            if self.lowest_id == u64::MAX {
                done = true;
            } else {
                let low = self.lowest_id;
                let idx = (low % 32) as usize;
                let ready = match &self.buffer[idx] {
                    Some(e) => e.id == low && e.state == self.state_to_pop,
                    None => false,
                };
                if !ready {
                    assert(self.entry_at(low as int) == start.entry_at(low as int));
                    done = true;
                } else {
                    assert(self.entry_at(low as int) == start.entry_at(low as int));
                    let ghost before = *self;
                    let e = self.buffer[idx].take().unwrap();
                    out.push(e);
                    self.lowest_id = low + 1;
                    assert forall|j: int| self.lowest() <= j implies #[trigger] self.entry_at(j) == start.entry_at(j) by {
                        assert(before.entry_at(j) == start.entry_at(j));
                        if j % 32 == idx as int {
                            assert(j != low);
                            assert(before.entry_at(j) is None);
                        } else {
                            assert(self.slots()[j % 32] == before.slots()[j % 32]);
                        }
                    }
                }
            }
        }
        proof {
            if start.send_wf() {
                self.lemma_wf();
                assert forall|p: u64| #[trigger] handed_on(start, p) implies handed_on(*self, p) by {
                    if p >= self.lowest() {
                        assert(self.entry_at(p as int) == start.entry_at(p as int));
                    }
                }
                Buffer::lemma_send_kept(start, *self);
            }
        }
        out
    }

    /// The scalar fields of `a` and `b` agree, but perhaps for `lowest`.
    pub open spec fn same_scalars_but_lowest(a: Buffer, b: Buffer) -> bool {
        &&& a.latest() == b.latest()
        &&& a.cursor() == b.cursor()
        &&& a.pop_state() == b.pop_state()
    }
}

/// The hashes held for `s`; none when `s` is not held.
pub open spec fn hashes_at(b: Buffer, s: int) -> Seq<PktHash> {
    if b.entry_at(s) is Some {
        b.entry_at(s)->Some_0.hashes@
    } else {
        Seq::<PktHash>::empty()
    }
}

/// `s` may take one more hash: held with room left, or not held and with predecessors.
pub open spec fn has_room(b: Buffer, s: int) -> bool {
    if b.entry_at(s) is Some {
        b.entry_at(s)->Some_0.hashes.len() < b.entry_at(s)->Some_0.dependencies.len()
    } else {
        predecessors(s as u64).len() > 0
    }
}

/// `f` is what `s` holds after one more hash `h` in buffer `b`.
pub open spec fn after_hash(b: Buffer, s: int, h: PktHash, f: BufferEntry) -> bool {
    &&& f.hashes@ == hashes_at(b, s).push(h)
    &&& b.entry_at(s) is Some ==> same_but_hashes(f, b.entry_at(s)->Some_0)
    &&& b.entry_at(s) is None ==> {
        &&& f.id == s
        &&& f.signature is None
        &&& f.payload is None
        &&& f.dependencies@ == predecessors(s as u64)
        &&& f.state == State::NotReady
    }
}

impl Buffer {
    proof fn lemma_slot_update(a: Buffer, b: Buffer, x: int)
        requires
            a.wf(),
            a.in_window(x),
            b.lowest() == a.lowest(),
            b.slots() == a.slots().update(x % 32, b.slots()[x % 32]),
            b.slots()[x % 32] is Some,
            b.slots()[x % 32]->Some_0.id == x,
        ensures
            forall|j: int| j != x ==> #[trigger] b.entry_at(j) == a.entry_at(j),
            b.entry_at(x) == b.slots()[x % 32],
    {
        assert forall|j: int| j != x implies #[trigger] b.entry_at(j) == a.entry_at(j) by {
            if j % 32 == x % 32 {
                let i = x % 32;
                if a.buffer@[i] is Some {
                    assert(a.buffer@[i]->Some_0.id == x);
                }
            }
        }
    }

    /// Makes sure the slot of `id` holds `id`, with a fresh entry where it held
    /// nothing or another identifier.
    fn get_or_create(&mut self, id: u64) -> (r: Result<(), Error>)
        requires
            old(self).wf(),
        ensures
            final(self).wf(),
            Buffer::same_scalars(*old(self), *final(self)),
            !old(self).in_window(id as int) ==> r == Err::<(), Error>(Error::OutOfBoundId)
                && *final(self) == *old(self),
            old(self).in_window(id as int) ==> {
                &&& r is Ok
                &&& final(self).slots() == old(self).slots().update(id as int % 32, final(self).slots()[id as int % 32])
                &&& final(self).entry_at(id as int) is Some
                &&& final(self).slots()[id as int % 32] == final(self).entry_at(id as int)
                &&& old(self).entry_at(id as int) is Some ==> final(self).entry_at(id as int) == old(self).entry_at(id as int)
                &&& old(self).entry_at(id as int) is None ==> is_fresh(final(self).entry_at(id as int)->Some_0, id as int)
            },
    {
        if id < self.lowest_id || id - self.lowest_id >= 32 {
            return Err(Error::OutOfBoundId);
        }
        let idx = (id % 32) as usize;
        let stale = match &self.buffer[idx] {
            Some(e) => e.id != id,
            None => true,
        };
        if stale {
            let e = BufferEntry::new_id(id);
            self.buffer[idx] = Some(e);
        }
        proof {
            assert(self.buffer@ == old(self).buffer@.update(idx as int, self.buffer@[idx as int]));
        }
        Ok(())
    }

    /// Appends `h` to the hashes held for `s`, creating its entry first if needed.
    fn push_hash(&mut self, s: u64, h: PktHash)
        requires
            old(self).wf(),
            old(self).in_window(s as int),
            has_room(*old(self), s as int),
        ensures
            final(self).wf(),
            Buffer::same_scalars(*old(self), *final(self)),
            final(self).slots() == old(self).slots().update(s as int % 32, final(self).slots()[s as int % 32]),
            final(self).entry_at(s as int) is Some,
            final(self).slots()[s as int % 32] == final(self).entry_at(s as int),
            after_hash(*old(self), s as int, h, final(self).entry_at(s as int)->Some_0),
            forall|j: int| j != s ==> #[trigger] final(self).entry_at(j) == old(self).entry_at(j),
    {
        let ghost start = *self;
        let _ = self.get_or_create(s);
        let ghost mid = *self;
        let idx = (s % 32) as usize;
        let mut e = self.buffer[idx].take().unwrap();
        let ghost e0 = e;
        assert(Some(e0) == mid.entry_at(s as int));
        assert(e0.hashes@ == hashes_at(start, s as int));
        e.hashes.push(h);
        assert(same_but_hashes(e, e0));
        self.buffer[idx] = Some(e);
        proof {
            assert(self.buffer@ == start.buffer@.update(idx as int, self.buffer@[idx as int]));
            Buffer::lemma_slot_update(start, *self, s as int);
        }
    }

    /// Adds the next packet of the stream: `id` must follow the latest one inserted
    /// (or be 0 when none was) and lie in the window. Only the payload is taken.
    pub fn insert_in_sequence(&mut self, node: BufferEntry) -> (r: Result<(), Error>)
        requires
            old(self).wf(),
        ensures
            final(self).wf(),
            !old(self).in_window(node.id as int) ==> r == Err::<(), Error>(Error::OutOfBoundId)
                && *final(self) == *old(self),
            old(self).in_window(node.id as int) && !follows(old(self).latest(), node.id)
                ==> r == Err::<(), Error>(Error::IllegalInsert) && *final(self) == *old(self),
            old(self).in_window(node.id as int) && follows(old(self).latest(), node.id) ==> {
                &&& r is Ok
                &&& final(self).latest() == Some(node.id)
                &&& final(self).lowest() == old(self).lowest()
                &&& final(self).cursor() == old(self).cursor()
                &&& final(self).pop_state() == old(self).pop_state()
                &&& final(self).entry_at(node.id as int) is Some
                &&& final(self).entry_at(node.id as int)->Some_0.payload == node.payload
                &&& old(self).entry_at(node.id as int) is Some ==> same_but_payload(
                    final(self).entry_at(node.id as int)->Some_0, old(self).entry_at(node.id as int)->Some_0)
                &&& old(self).entry_at(node.id as int) is None ==> {
                    let e = final(self).entry_at(node.id as int)->Some_0;
                    &&& e.id == node.id
                    &&& e.hashes@.len() == 0
                    &&& e.signature is None
                    &&& e.dependencies@ == predecessors(node.id)
                    &&& e.state == State::NotReady
                }
                &&& forall|j: int| j != node.id ==> #[trigger] final(self).entry_at(j) == old(self).entry_at(j)
            },
            old(self).send_wf() ==> final(self).send_wf(),
    {
        let id = node.id;
        if id < self.lowest_id || id - self.lowest_id >= 32 {
            return Err(Error::OutOfBoundId);
        }
        let in_order = if self.inserted {
            id > 0 && id - 1 == self.latest_id
        } else {
            id == 0
        };
        if !in_order {
            return Err(Error::IllegalInsert);
        }
        let ghost start = *self;
        let _ = self.get_or_create(id);
        let idx = (id % 32) as usize;
        let mut e = self.buffer[idx].take().unwrap();
        e.payload = node.payload;
        self.buffer[idx] = Some(e);
        self.latest_id = id;
        self.inserted = true;
        proof {
            assert(self.buffer@ == start.buffer@.update(idx as int, self.buffer@[idx as int]));
            Buffer::lemma_slot_update(start, *self, id as int);
            if start.send_wf() {
                assert forall|p: u64| #[trigger] handed_on(start, p) implies handed_on(*self, p) by {
                    if p != id {
                        assert(self.entry_at(p as int) == start.entry_at(p as int));
                    }
                }
                assert forall|j: int| #[trigger] self.entry_at(j) is Some
                    implies self.entry_at(j)->Some_0.hashes.len() <= hashes_at(start, j).len() by {
                    if j != id {
                        assert(self.entry_at(j) == start.entry_at(j));
                    }
                }
                Buffer::lemma_send_kept(start, *self);
            }
        }
        Ok(())
    }
}

/// `id` is the next identifier after `latest`: 0 when nothing was inserted yet.
pub open spec fn follows(latest: Option<u64>, id: u64) -> bool {
    match latest {
        Some(l) => id == l + 1,
        None => id == 0,
    }
}

/// `id` is held, not yet forwarded, and holds all its predecessor hashes.
pub open spec fn forwardable(b: Buffer, id: u64) -> bool {
    &&& b.entry_at(id as int) is Some
    &&& b.entry_at(id as int)->Some_0.state != State::ReadySent
    &&& b.entry_at(id as int)->Some_0.hashes.len() == b.entry_at(id as int)->Some_0.dependencies.len()
}

/// Every successor of `id` lies in the window.
pub open spec fn succs_in_window(b: Buffer, id: u64) -> bool {
    forall|k: int| 0 <= k < successors(id).len() ==> b.in_window(successors(id)[k] as int)
}

/// Every successor of `id` may take one more hash.
pub open spec fn succs_have_room(b: Buffer, id: u64) -> bool {
    forall|k: int| 0 <= k < successors(id).len() ==> has_room(b, successors(id)[k] as int)
}

/// `b` is `a` after `id` forwarded its total hash: `id` is `ReadySent` and each of its
/// successors holds the hash appended; nothing else changed.
pub open spec fn forwarded(a: Buffer, b: Buffer, id: u64) -> bool {
    let e = a.entry_at(id as int)->Some_0;
    let h = total_hash(payload_bytes(e.payload), e.hashes@);
    let ss = successors(id);
    &&& b.entry_at(id as int) is Some
    &&& same_but_state(b.entry_at(id as int)->Some_0, e)
    &&& b.entry_at(id as int)->Some_0.state == State::ReadySent
    &&& forall|k: int| 0 <= k < ss.len() ==> {
        &&& #[trigger] b.entry_at(ss[k] as int) is Some
        &&& exists|hh: PktHash| hh@ == h && after_hash(a, ss[k] as int, hh, b.entry_at(ss[k] as int)->Some_0)
    }
    &&& forall|j: int| j != id && !ss.contains(j as u64) && is_id(j) ==> #[trigger] b.entry_at(j) == a.entry_at(j)
}

impl Buffer {
    /// Forwards the total hash of `id` to its successors and marks it `ReadySent`.
    /// Nothing changes on an error, nor when the slot of `id` is empty or already
    /// `ReadySent`. A successor outside the window is refused with `OutOfBoundId`, one
    /// that already holds all its hashes with `IllegalInsert`.
    pub fn forwards_hash(&mut self, id: u64) -> (r: Result<(), Error>)
        requires
            old(self).wf(),
        ensures
            final(self).wf(),
            Buffer::same_scalars(*old(self), *final(self)),
            ({
                let slot = old(self).slots()[id as int % 32];
                &&& slot is None ==> r is Ok && *final(self) == *old(self)
                &&& slot is Some && slot->Some_0.state == State::ReadySent ==> r is Ok && *final(self) == *old(self)
                &&& slot is Some && slot->Some_0.state != State::ReadySent && slot->Some_0.id != id
                    ==> r == Err::<(), Error>(Error::OutOfBoundId) && *final(self) == *old(self)
                &&& slot is Some && slot->Some_0.state != State::ReadySent && slot->Some_0.id == id
                    && slot->Some_0.hashes.len() != slot->Some_0.dependencies.len()
                    ==> r == Err::<(), Error>(Error::MissingHash) && *final(self) == *old(self)
            }),
            forwardable(*old(self), id) && !succs_in_window(*old(self), id)
                ==> r == Err::<(), Error>(Error::OutOfBoundId) && *final(self) == *old(self),
            forwardable(*old(self), id) && succs_in_window(*old(self), id) && !succs_have_room(*old(self), id)
                ==> r == Err::<(), Error>(Error::IllegalInsert) && *final(self) == *old(self),
            forwardable(*old(self), id) && succs_in_window(*old(self), id) && succs_have_room(*old(self), id)
                ==> r is Ok && forwarded(*old(self), *final(self), id),
            old(self).send_wf() ==> final(self).send_wf(),
    {
        let ghost start = *self;
        let idx = (id % 32) as usize;
        match &self.buffer[idx] {
            None => {
                return Ok(());
            },
            Some(e) => {
                if e.state == State::ReadySent {
                    return Ok(());
                }
                if e.id != id {
                    return Err(Error::OutOfBoundId);
                }
                if e.dependencies.len() != e.hashes.len() {
                    return Err(Error::MissingHash);
                }
            },
        }
        assert(forwardable(start, id));
        let succ = successor_ids(id);
        proof {
            lemma_degree(id);
            lemma_successors_distinct(id);
        }
        let mut k: usize = 0;
        while k < succ.len()
            invariant
                *self == start,
                self.wf(),
                forwardable(start, id),
                start.slots()[id as int % 32] == start.entry_at(id as int),
                succ@ == successors(id),
                0 <= k <= succ@.len(),
                forall|m: int| 0 <= m < k ==> start.in_window(succ@[m] as int),
            decreases succ@.len() - k,
        {
            let s = succ[k];
            if s < self.lowest_id || s - self.lowest_id >= 32 {
                return Err(Error::OutOfBoundId);
            }
            k += 1;
        }
        assert(succs_in_window(start, id));
        k = 0;
        while k < succ.len()
            invariant
                *self == start,
                self.wf(),
                forwardable(start, id),
                start.slots()[id as int % 32] == start.entry_at(id as int),
                succ@ == successors(id),
                succs_in_window(start, id),
                0 <= k <= succ@.len(),
                forall|m: int| 0 <= m < k ==> has_room(start, succ@[m] as int),
            decreases succ@.len() - k,
        {
            let s = succ[k];
            let full = match &self.buffer[(s % 32) as usize] {
                Some(f) => f.id == s && f.hashes.len() >= f.dependencies.len(),
                None => false,
            };
            if full {
                return Err(Error::IllegalInsert);
            }
            proof {
                lemma_graph_inverse(id, s);
                assert(successors(id).contains(s));
                assert(predecessors(s).contains(id));
                self.lemma_wf();
            }
            k += 1;
        }
        assert(succs_have_room(start, id));
        let mut e = self.buffer[idx].take().unwrap();
        let h = e.compute_total_hash();
        e.state = State::ReadySent;
        self.buffer[idx] = Some(e);
        let ghost mid = *self;
        proof {
            assert(self.buffer@ == start.buffer@.update(idx as int, self.buffer@[idx as int]));
            Buffer::lemma_slot_update(start, *self, id as int);
        }
        if succ.len() > 0 {
            self.push_hash(succ[0], h);
        }
        let ghost mid2 = *self;
        if succ.len() > 1 {
            assert(succ@[0] < succ@[1]);
            self.push_hash(succ[1], h);
        }
        proof {
            let ss = successors(id);
            assert forall|k: int| 0 <= k < ss.len() implies {
                &&& #[trigger] self.entry_at(ss[k] as int) is Some
                &&& exists|hh: PktHash| hh@ == h@ && after_hash(start, ss[k] as int, hh, self.entry_at(ss[k] as int)->Some_0)
            } by {
                assert(ss[k] != id);
                assert(mid.entry_at(ss[k] as int) == start.entry_at(ss[k] as int));
                if k == 0 && ss.len() > 1 {
                    assert(ss[0] < ss[1]);
                }
                assert(after_hash(start, ss[k] as int, h, self.entry_at(ss[k] as int)->Some_0));
            }
            assert forall|j: int| j != id && !ss.contains(j as u64) && is_id(j) implies #[trigger] self.entry_at(j) == start.entry_at(j) by {
                if ss.len() > 0 {
                    assert(j != ss[0]);
                }
                if ss.len() > 1 {
                    assert(j != ss[1]);
                }
            }
            if start.send_wf() {
                lemma_forward_send(start, *self, id);
            }
        }
        Ok(())
    }
}

/// `k` indexes the first successor of `id` that `b` holds authenticated.
pub open spec fn is_first_auth(b: Buffer, id: u64, k: int) -> bool {
    &&& 0 <= k < successors(id).len()
    &&& b.auth_at(successors(id)[k] as int)
    &&& forall|m: int| 0 <= m < k ==> !#[trigger] b.auth_at(successors(id)[m] as int)
}

/// The `k`-th successor of `id` holds the digest `h`.
pub open spec fn succ_holds(b: Buffer, id: u64, k: int, h: Seq<u8>) -> bool {
    holds_hash(b.entry_at(successors(id)[k] as int)->Some_0.hashes@, h)
}

/// Some entry that `b` holds is `BadAuthentication`.
pub open spec fn has_rejected(b: Buffer) -> bool {
    exists|j: int| #[trigger] b.entry_at(j) is Some && b.entry_at(j)->Some_0.state == State::BadAuthentication
}

/// What authenticating `id` did, from buffer `a` to buffer `b`, with result `r`:
/// - the only error is `BadAuthentication`, and only where some held entry is rejected;
/// - nothing happens to an identifier not held, nor to an entry already authenticated;
///   a rejected one fails again;
/// - an open signed entry ends authenticated;
/// - an open unsigned entry with no authenticated successor stays as it is; otherwise
///   the first authenticated successor decides: authenticated if it holds the entry's
///   total hash, else rejected with `Err(BadAuthentication)`.
#[verifier::opaque]
pub open spec fn auth_outcome(a: Buffer, b: Buffer, id: u64, r: Result<(), Error>) -> bool {
    &&& r is Err ==> r == Err::<(), Error>(Error::BadAuthentication) && has_rejected(b)
    &&& a.entry_at(id as int) is None ==> r is Ok && b == a
    &&& a.entry_at(id as int) is Some ==> ({
        let e = a.entry_at(id as int)->Some_0;
        let h = total_hash(payload_bytes(e.payload), e.hashes@);
        &&& e.state == State::Authenticated ==> r is Ok && b == a
        &&& e.state == State::BadAuthentication
            ==> r == Err::<(), Error>(Error::BadAuthentication) && b == a
        &&& is_open(e.state) && e.signature is Some ==> b.auth_at(id as int)
        &&& is_open(e.state) && e.signature is None ==> {
            &&& no_auth_succ(a, id) ==> r is Ok && b == a
            &&& forall|k: int| #[trigger] is_first_auth(a, id, k) ==> {
                &&& succ_holds(a, id, k, h) ==> b.auth_at(id as int)
                &&& !succ_holds(a, id, k, h) ==> {
                    &&& b.entry_at(id as int) is Some
                    &&& b.entry_at(id as int)->Some_0.state == State::BadAuthentication
                    &&& r == Err::<(), Error>(Error::BadAuthentication)
                }
            }
            &&& b.auth_at(id as int) ==> vouched(a, id, h)
        }
    })
}

/// Where some successor is authenticated, there is a first one.
proof fn lemma_first_exists(b: Buffer, id: u64)
    requires
        !no_auth_succ(b, id),
    ensures
        exists|k: int| #[trigger] is_first_auth(b, id, k),
{
    lemma_degree(id);
    let ss = successors(id);
    if b.auth_at(ss[0] as int) {
        assert(is_first_auth(b, id, 0));
    } else {
        assert(is_first_auth(b, id, 1));
    }
}

/// A failed outcome: the only error, with some held entry rejected.
proof fn lemma_outcome_err(a: Buffer, b: Buffer, id: u64, r: Result<(), Error>)
    requires
        auth_outcome(a, b, id, r),
        r is Err,
    ensures
        r == Err::<(), Error>(Error::BadAuthentication),
        has_rejected(b),
{
    reveal(auth_outcome);
}

/// An open entry that ends authenticated, by its signature or by its first
/// authenticated successor, meets the outcome.
proof fn lemma_outcome_authenticated(a: Buffer, b: Buffer, id: u64, r: Result<(), Error>)
    requires
        a.entry_at(id as int) is Some,
        is_open(a.entry_at(id as int)->Some_0.state),
        b.auth_at(id as int),
        a.entry_at(id as int)->Some_0.signature is None ==> {
            let h = total_hash(payload_bytes(a.entry_at(id as int)->Some_0.payload), a.entry_at(id as int)->Some_0.hashes@);
            &&& vouched(a, id, h)
            &&& forall|k: int| #[trigger] is_first_auth(a, id, k) ==> succ_holds(a, id, k, h)
        },
        r is Err ==> r == Err::<(), Error>(Error::BadAuthentication) && has_rejected(b),
    ensures
        auth_outcome(a, b, id, r),
{
    reveal(auth_outcome);
    if a.entry_at(id as int)->Some_0.signature is None {
        let h = total_hash(payload_bytes(a.entry_at(id as int)->Some_0.payload), a.entry_at(id as int)->Some_0.hashes@);
        let k = choose|k: int| 0 <= k < successors(id).len() && #[trigger] a.auth_at(successors(id)[k] as int)
            && holds_hash(a.entry_at(successors(id)[k] as int)->Some_0.hashes@, h);
        assert(!no_auth_succ(a, id));
    }
}

/// A predecessor `p` of an authenticated `id`, tried with success, ends authenticated
/// or not held.
proof fn lemma_after_child(before: Buffer, after: Buffer, p: u64, id: u64, r: Result<(), Error>)
    requires
        before.wf(),
        auth_frame(before, after),
        before.auth_at(id as int),
        successors(p).contains(id),
        auth_outcome(before, after, p, r),
        r is Ok,
    ensures
        after.entry_at(p as int) is None || after.auth_at(p as int),
{
    reveal(auth_outcome);
    Buffer::lemma_frame(before, after);
    if before.entry_at(p as int) is Some {
        let j = choose|j: int| 0 <= j < successors(p).len() && successors(p)[j] == id;
        assert(before.auth_at(successors(p)[j] as int));
        assert(!no_auth_succ(before, p));
        lemma_first_exists(before, p);
    }
}

/// Every held successor of `id` holds the total hash of the entry held for `id`, as
/// it does when both came unaltered from a sender.
pub open spec fn consistent_for(b: Buffer, id: u64) -> bool {
    let e = b.entry_at(id as int)->Some_0;
    let h = total_hash(payload_bytes(e.payload), e.hashes@);
    forall|k: int| 0 <= k < successors(id).len() && #[trigger] b.entry_at(successors(id)[k] as int) is Some
        ==> holds_hash(b.entry_at(successors(id)[k] as int)->Some_0.hashes@, h)
}

/// Every held entry is consistent with its held successors.
pub open spec fn all_consistent(b: Buffer) -> bool {
    forall|j: int| #[trigger] b.entry_at(j) is Some ==> consistent_for(b, j as u64)
}

/// Changing states only keeps data consistent.
proof fn lemma_consistent_kept(a: Buffer, b: Buffer)
    requires
        a.wf(),
        auth_frame(a, b),
        all_consistent(a),
    ensures
        all_consistent(b),
{
    Buffer::lemma_frame(a, b);
    assert forall|j: int| #[trigger] b.entry_at(j) is Some implies consistent_for(b, j as u64) by {
        assert(a.entry_at(j) is Some);
        assert(consistent_for(a, j as u64));
        let ss = successors(j as u64);
        assert forall|k: int| 0 <= k < ss.len() && #[trigger] b.entry_at(ss[k] as int) is Some implies
            holds_hash(b.entry_at(ss[k] as int)->Some_0.hashes@, total_hash(payload_bytes(b.entry_at(j)->Some_0.payload), b.entry_at(j)->Some_0.hashes@)) by {
            assert(a.entry_at(ss[k] as int) is Some);
        }
    }
}

/// On consistent data, an open unsigned entry with an authenticated successor always
/// ends authenticated, whatever the result of the call.
pub proof fn lemma_vouched_entry_authenticates(a: Buffer, b: Buffer, id: u64, r: Result<(), Error>)
    requires
        a.entry_at(id as int) is Some,
        is_open(a.entry_at(id as int)->Some_0.state),
        a.entry_at(id as int)->Some_0.signature is None,
        consistent_for(a, id),
        !no_auth_succ(a, id),
        auth_outcome(a, b, id, r),
    ensures
        b.auth_at(id as int),
{
    reveal(auth_outcome);
    lemma_first_exists(a, id);
    let k = choose|k: int| #[trigger] is_first_auth(a, id, k);
    assert(a.entry_at(successors(id)[k] as int) is Some);
}

/// The received `node`, `NotReady`.
pub open spec fn as_received(node: BufferEntry) -> BufferEntry {
    BufferEntry {
        hashes: node.hashes,
        signature: node.signature,
        id: node.id,
        payload: node.payload,
        dependencies: node.dependencies,
        state: State::NotReady,
    }
}

/// `m` is `a` with `node` placed, `NotReady`, in its slot.
pub open spec fn placed(a: Buffer, m: Buffer, node: BufferEntry) -> bool {
    &&& m.wf()
    &&& Buffer::same_scalars(a, m)
    &&& m.slots() == a.slots().update(node.id as int % 32, Some(as_received(node)))
}

/// A state step of the receive pipeline: none, or from an open state to a verdict.
pub open spec fn state_step(x: State, y: State) -> bool {
    x == y || (is_open(x) && (y == State::Authenticated || y == State::BadAuthentication))
}

/// `b` is `a` where some entries moved on by a state step, and nothing else changed.
pub open spec fn auth_frame(a: Buffer, b: Buffer) -> bool {
    &&& Buffer::same_scalars(a, b)
    &&& a.slots().len() == b.slots().len()
    &&& forall|i: int| 0 <= i < a.slots().len() ==> {
        &&& (#[trigger] a.slots()[i] is None <==> b.slots()[i] is None)
        &&& a.slots()[i] is Some ==> same_but_state(b.slots()[i]->Some_0, a.slots()[i]->Some_0)
            && state_step(a.slots()[i]->Some_0.state, b.slots()[i]->Some_0.state)
    }
}

pub open spec fn is_open_slot(o: Option<BufferEntry>) -> bool {
    o is Some && is_open(o->Some_0.state)
}

/// Number of slots whose entry is still open.
pub open spec fn open_count(s: Seq<Option<BufferEntry>>) -> nat
    decreases s.len(),
{
    if s.len() == 0 {
        0
    } else {
        open_count(s.drop_last()) + if is_open_slot(s.last()) { 1nat } else { 0nat }
    }
}

/// No successor of `id` is held and authenticated.
pub open spec fn no_auth_succ(b: Buffer, id: u64) -> bool {
    forall|k: int| 0 <= k < successors(id).len() ==> !#[trigger] b.auth_at(successors(id)[k] as int)
}

/// Some authenticated successor of `id` holds the digest `h`.
pub open spec fn vouched(b: Buffer, id: u64, h: Seq<u8>) -> bool {
    exists|k: int| 0 <= k < successors(id).len() && #[trigger] b.auth_at(successors(id)[k] as int)
        && holds_hash(b.entry_at(successors(id)[k] as int)->Some_0.hashes@, h)
}

/// Some authenticated successor of `id` does not hold the digest `h`.
pub open spec fn rejected(b: Buffer, id: u64, h: Seq<u8>) -> bool {
    exists|k: int| 0 <= k < successors(id).len() && #[trigger] b.auth_at(successors(id)[k] as int)
        && !holds_hash(b.entry_at(successors(id)[k] as int)->Some_0.hashes@, h)
}

proof fn lemma_open_count(a: Seq<Option<BufferEntry>>, b: Seq<Option<BufferEntry>>)
    requires
        a.len() == b.len(),
        forall|i: int| 0 <= i < a.len() && #[trigger] is_open_slot(b[i]) ==> is_open_slot(a[i]),
    ensures
        open_count(b) <= open_count(a),
        (exists|i: int| 0 <= i < a.len() && is_open_slot(a[i]) && !is_open_slot(b[i]))
            ==> open_count(b) < open_count(a),
    decreases a.len(),
{
    if a.len() > 0 {
        let a0 = a.drop_last();
        let b0 = b.drop_last();
        assert forall|i: int| 0 <= i < a0.len() && #[trigger] is_open_slot(b0[i]) implies is_open_slot(a0[i]) by {
            assert(b0[i] == b[i] && a0[i] == a[i]);
        }
        lemma_open_count(a0, b0);
        if exists|i: int| 0 <= i < a.len() && is_open_slot(a[i]) && !is_open_slot(b[i]) {
            let i = choose|i: int| 0 <= i < a.len() && is_open_slot(a[i]) && !is_open_slot(b[i]);
            if i < a.len() - 1 {
                assert(a0[i] == a[i] && b0[i] == b[i]);
            }
        }
    }
}

impl Buffer {
    proof fn lemma_frame(a: Buffer, b: Buffer)
        requires
            auth_frame(a, b),
            a.wf(),
        ensures
            forall|j: int| (#[trigger] b.entry_at(j) is Some) == (a.entry_at(j) is Some),
            forall|j: int| #[trigger] b.entry_at(j) is Some ==> same_but_state(b.entry_at(j)->Some_0, a.entry_at(j)->Some_0)
                && state_step(a.entry_at(j)->Some_0.state, b.entry_at(j)->Some_0.state),
            open_count(b.slots()) <= open_count(a.slots()),
    {
        assert forall|j: int| (#[trigger] b.entry_at(j) is Some) == (a.entry_at(j) is Some) by {
            assert(a.slots()[j % 32] is None <==> b.slots()[j % 32] is None);
        }
        assert forall|i: int| 0 <= i < a.slots().len() && #[trigger] is_open_slot(b.slots()[i]) implies is_open_slot(a.slots()[i]) by {
            assert(a.slots()[i] is None <==> b.slots()[i] is None);
        }
        lemma_open_count(a.slots(), b.slots());
    }

    proof fn lemma_frame_trans(a: Buffer, b: Buffer, c: Buffer)
        requires
            auth_frame(a, b),
            auth_frame(b, c),
        ensures
            auth_frame(a, c),
    {
        assert forall|i: int| 0 <= i < a.slots().len() implies {
            &&& (#[trigger] a.slots()[i] is None <==> c.slots()[i] is None)
            &&& a.slots()[i] is Some ==> same_but_state(c.slots()[i]->Some_0, a.slots()[i]->Some_0)
                && state_step(a.slots()[i]->Some_0.state, c.slots()[i]->Some_0.state)
        } by {
            assert(b.slots()[i] is None <==> c.slots()[i] is None);
        }
    }

    /// The verdict of the first authenticated successor of the unsigned entry `id`:
    /// `Authenticated` if it holds the entry's total hash, `BadAuthentication` if not,
    /// `NotReady` if no successor is authenticated.
    fn judge(&self, id: u64) -> (v: State)
        requires
            self.wf(),
            self.entry_at(id as int) is Some,
        ensures
            v == State::NotReady || v == State::Authenticated || v == State::BadAuthentication,
            ({
                let e = self.entry_at(id as int)->Some_0;
                let h = total_hash(payload_bytes(e.payload), e.hashes@);
                &&& v == State::NotReady <==> no_auth_succ(*self, id)
                &&& v == State::Authenticated ==> vouched(*self, id, h)
                &&& v == State::BadAuthentication ==> rejected(*self, id, h)
                &&& forall|k: int| #[trigger] is_first_auth(*self, id, k)
                    ==> (v == State::Authenticated <==> succ_holds(*self, id, k, h))
            }),
    {
        let ghost e0 = self.entry_at(id as int)->Some_0;
        let ghost h0 = total_hash(payload_bytes(e0.payload), e0.hashes@);
        let idx = (id % 32) as usize;
        let h = match &self.buffer[idx] {
            Some(e) => e.compute_total_hash(),
            None => [0u8; 32],
        };
        let succ = successor_ids(id);
        let mut verdict = State::NotReady;
        let mut k: usize = 0;
        let mut found = false;
        let ghost mut kf: int = 0;
        while k < succ.len() && !found
            invariant
                self.wf(),
                found ==> is_first_auth(*self, id, kf),
                found ==> (verdict == State::Authenticated <==> succ_holds(*self, id, kf, h0)),
                self.entry_at(id as int) == Some(e0),
                h@ == h0,
                succ@ == successors(id),
                0 <= k <= succ@.len(),
                !found ==> verdict == State::NotReady,
                !found ==> forall|m: int| 0 <= m < k ==> !#[trigger] self.auth_at(succ@[m] as int),
                found ==> !no_auth_succ(*self, id),
                found ==> verdict == State::Authenticated || verdict == State::BadAuthentication,
                verdict == State::Authenticated ==> vouched(*self, id, h0),
                verdict == State::BadAuthentication ==> rejected(*self, id, h0),
                verdict == State::NotReady || verdict == State::Authenticated || verdict == State::BadAuthentication,
            decreases succ@.len() - k,
        {
            let s = succ[k];
            match &self.buffer[(s % 32) as usize] {
                Some(p) => {
                    if p.id == s && p.state == State::Authenticated {
                        assert(self.auth_at(s as int));
                        assert(succ@[k as int] == s);
                        proof {
                            kf = k as int;
                        }
                        assert(is_first_auth(*self, id, kf));
                        found = true;
                        match p.compare_hash(&h) {
                            Ok(()) => {
                                verdict = State::Authenticated;
                            },
                            Err(_) => {
                                verdict = State::BadAuthentication;
                            },
                        }
                    }
                },
                None => {},
            }
            k += 1;
        }
        assert forall|k2: int| #[trigger] is_first_auth(*self, id, k2)
            implies (verdict == State::Authenticated <==> succ_holds(*self, id, k2, h0)) by {
            if found {
                assert(k2 == kf);
            }
        }
        verdict
    }

    /// Gives the open entry `id` the verdict `v`.
    fn set_verdict(&mut self, id: u64, v: State)
        requires
            old(self).wf(),
            old(self).entry_at(id as int) is Some,
            is_open(old(self).entry_at(id as int)->Some_0.state),
            v == State::Authenticated || v == State::BadAuthentication,
        ensures
            final(self).wf(),
            auth_frame(*old(self), *final(self)),
            open_count(final(self).slots()) < open_count(old(self).slots()),
            final(self).entry_at(id as int) is Some,
            same_but_state(final(self).entry_at(id as int)->Some_0, old(self).entry_at(id as int)->Some_0),
            final(self).entry_at(id as int)->Some_0.state == v,
            forall|j: int| j != id ==> #[trigger] final(self).entry_at(j) == old(self).entry_at(j),
    {
        let ghost start = *self;
        let idx = (id % 32) as usize;
        assert(start.slots()[idx as int] == start.entry_at(id as int));
        let mut e = self.buffer[idx].take().unwrap();
        e.state = v;
        self.buffer[idx] = Some(e);
        proof {
            assert(self.buffer@ == start.buffer@.update(idx as int, self.buffer@[idx as int]));
            Buffer::lemma_slot_update(start, *self, id as int);
            assert forall|i: int| 0 <= i < start.slots().len() implies {
                &&& (#[trigger] start.slots()[i] is None <==> self.slots()[i] is None)
                &&& start.slots()[i] is Some ==> same_but_state(self.slots()[i]->Some_0, start.slots()[i]->Some_0)
                    && state_step(start.slots()[i]->Some_0.state, self.slots()[i]->Some_0.state)
            } by {
                if i != idx as int {
                    assert(self.slots()[i] == start.slots()[i]);
                }
            }
            assert forall|i: int| 0 <= i < start.slots().len() && #[trigger] is_open_slot(self.slots()[i]) implies is_open_slot(start.slots()[i]) by {
                if i != idx as int {
                    assert(self.slots()[i] == start.slots()[i]);
                }
            }
            lemma_open_count(start.slots(), self.slots());
            assert(is_open_slot(start.slots()[idx as int]) && !is_open_slot(self.slots()[idx as int]));
        }
    }

    /// Tries to authenticate `id`: by its signature, which is accepted as valid, or by
    /// the first authenticated successor, which must hold its total hash. Once
    /// authenticated, its predecessors are tried in turn, and the first failure among
    /// them is returned. Entries only ever move from an open state to a verdict, and
    /// `BadAuthentication` latches. On consistent data with nothing rejected, it never
    /// fails.
    pub fn authenticate_node(&mut self, id: u64) -> (r: Result<(), Error>)
        requires
            old(self).wf(),
        ensures
            final(self).wf(),
            auth_frame(*old(self), *final(self)),
            auth_outcome(*old(self), *final(self), id, r),
            r is Ok && final(self).auth_at(id as int) && old(self).entry_at(id as int) is Some
                && is_open(old(self).entry_at(id as int)->Some_0.state)
                ==> forall|k: int| 0 <= k < predecessors(id).len()
                ==> #[trigger] final(self).entry_at(predecessors(id)[k] as int) is None
                    || final(self).auth_at(predecessors(id)[k] as int),
            all_consistent(*old(self)) && !has_rejected(*old(self)) ==> r is Ok && !has_rejected(*final(self)),
        decreases open_count(old(self).slots()),
    {
        let ghost start = *self;
        proof {
            start.lemma_wf();
            reveal(auth_outcome);
        }
        let idx = (id % 32) as usize;
        let signed = match &self.buffer[idx] {
            None => {
                return Ok(());
            },
            Some(e) => {
                if e.id != id {
                    return Ok(());
                }
                if e.state == State::Authenticated {
                    return Ok(());
                }
                if e.state == State::BadAuthentication {
                    assert(start.entry_at(id as int) is Some);
                    return Err(Error::BadAuthentication);
                }
                e.signature.is_some()
            },
        };
        let ghost e0 = start.entry_at(id as int)->Some_0;
        let ghost h0 = total_hash(payload_bytes(e0.payload), e0.hashes@);
        let ghost good = all_consistent(start) && !has_rejected(start);
        let verdict = if signed {
            State::Authenticated
        } else {
            self.judge(id)
        };
        proof {
            if good && verdict == State::BadAuthentication {
                assert(consistent_for(start, id));
                let k = choose|k: int| 0 <= k < successors(id).len() && #[trigger] start.auth_at(successors(id)[k] as int)
                    && !holds_hash(start.entry_at(successors(id)[k] as int)->Some_0.hashes@, h0);
                assert(start.entry_at(successors(id)[k] as int) is Some);
            }
        }
        if verdict == State::NotReady {
            return Ok(());
        }
        self.set_verdict(id, verdict);
        if verdict == State::BadAuthentication {
            assert(self.entry_at(id as int) is Some);
            return Err(Error::BadAuthentication);
        }
        proof {
            if good {
                lemma_consistent_kept(start, *self);
                if has_rejected(*self) {
                    let j = choose|j: int| #[trigger] self.entry_at(j) is Some
                        && self.entry_at(j)->Some_0.state == State::BadAuthentication;
                    assert(j != id);
                    assert(start.entry_at(j) == self.entry_at(j));
                }
            }
        }
        let preds = predecessor_ids(id);
        let mut k: usize = 0;
        while k < preds.len()
            invariant
                *old(self) == start,
                good == (all_consistent(start) && !has_rejected(start)),
                good ==> all_consistent(*self) && !has_rejected(*self),
                start.wf(),
                self.wf(),
                auth_frame(start, *self),
                open_count(self.slots()) < open_count(start.slots()),
                self.auth_at(id as int),
                self.entry_at(id as int) is Some && same_but_state(self.entry_at(id as int)->Some_0, e0),
                preds@ == predecessors(id),
                0 <= k <= preds@.len(),
                forall|m: int| 0 <= m < k ==> #[trigger] self.entry_at(preds@[m] as int) is None
                    || self.auth_at(preds@[m] as int),
                start.entry_at(id as int) == Some(e0),
                h0 == total_hash(payload_bytes(e0.payload), e0.hashes@),
                is_open(e0.state),
                signed ==> e0.signature is Some,
                !signed ==> e0.signature is None && vouched(start, id, h0),
                !signed ==> forall|k2: int| #[trigger] is_first_auth(start, id, k2) ==> succ_holds(start, id, k2, h0),
            decreases preds@.len() - k,
        {
            let p = preds[k];
            let ghost before = *self;
            proof {
                lemma_graph_inverse(p, id);
                assert(predecessors(id)[k as int] == p);
                Buffer::lemma_frame(start, before);
            }
            let res = self.authenticate_node(p);
            proof {
                Buffer::lemma_frame_trans(start, before, *self);
                Buffer::lemma_frame(before, *self);
                if good {
                    lemma_consistent_kept(before, *self);
                }
            }
            match res {
                Ok(()) => {
                    proof {
                        lemma_after_child(before, *self, p, id, res);
                    }
                },
                Err(err) => {
                    proof {
                        lemma_outcome_err(before, *self, p, res);
                        lemma_outcome_authenticated(start, *self, id, res);
                    }
                    return Err(err);
                },
            }
            k += 1;
        }
        proof {
            lemma_outcome_authenticated(start, *self, id, Ok(()));
        }
        Ok(())
    }

    /// Places a received entry, `NotReady`, and tries to authenticate it. An identifier
    /// outside the window is refused; one already held is left as it is.
    pub fn insert(&mut self, node: BufferEntry) -> (r: Result<(), Error>)
        requires
            old(self).wf(),
            node.wf(),
        ensures
            final(self).wf(),
            !old(self).in_window(node.id as int) ==> r == Err::<(), Error>(Error::OutOfBoundId)
                && *final(self) == *old(self),
            old(self).in_window(node.id as int) && old(self).entry_at(node.id as int) is Some
                ==> r is Ok && *final(self) == *old(self),
            old(self).in_window(node.id as int) && old(self).entry_at(node.id as int) is None ==> {
                &&& exists|m: Buffer| #[trigger] placed(*old(self), m, node)
                    && auth_frame(m, *final(self)) && auth_outcome(m, *final(self), node.id, r)
                &&& Buffer::same_scalars(*old(self), *final(self))
                &&& final(self).entry_at(node.id as int) is Some
                &&& same_but_state(final(self).entry_at(node.id as int)->Some_0, node)
                &&& node.signature is Some ==> final(self).auth_at(node.id as int)
                &&& forall|j: int| j != node.id && #[trigger] old(self).entry_at(j) is Some ==> {
                    &&& final(self).entry_at(j) is Some
                    &&& same_but_state(final(self).entry_at(j)->Some_0, old(self).entry_at(j)->Some_0)
                    &&& state_step(old(self).entry_at(j)->Some_0.state, final(self).entry_at(j)->Some_0.state)
                }
            },
    {
        let id = node.id;
        if id < self.lowest_id || id - self.lowest_id >= 32 {
            return Err(Error::OutOfBoundId);
        }
        let idx = (id % 32) as usize;
        let held = match &self.buffer[idx] {
            Some(e) => e.id == id,
            None => false,
        };
        if held {
            return Ok(());
        }
        let ghost start = *self;
        proof {
            start.lemma_wf();
        }
        let ghost node0 = node;
        let mut node = node;
        node.state = State::NotReady;
        assert(node == as_received(node0));
        self.buffer[idx] = Some(node);
        let ghost mid = *self;
        proof {
            assert(self.buffer@ == start.buffer@.update(idx as int, self.buffer@[idx as int]));
            Buffer::lemma_slot_update(start, *self, id as int);
        }
        let r = self.authenticate_node(id);
        proof {
            assert(placed(start, mid, node0));
            reveal(auth_outcome);
            Buffer::lemma_frame(mid, *self);
            assert(mid.entry_at(id as int) is Some);
        }
        r
    }
}

/// The send-side view of a buffer.
pub trait SendBuffer: Sized {
    /// The invariant that the operations keep.
    spec fn inv(&self) -> bool;

    /// The state of a new send buffer.
    spec fn fresh(&self) -> bool;

    /// A new, empty send buffer.
    fn new() -> (r: Self)
        ensures
            r.inv(),
            r.fresh(),
    ;

    /// Inserts the next packet of the stream.
    fn insert_in_sequence(&mut self, node: BufferEntry) -> (r: Result<(), Error>)
        requires
            old(self).inv(),
        ensures
            final(self).inv(),
    ;

    /// Forwards the total hash of `id` to its successors.
    fn forwards_hash(&mut self, id: u64) -> (r: Result<(), Error>)
        requires
            old(self).inv(),
        ensures
            final(self).inv(),
    ;
}

/// The receive-side view of a buffer.
pub trait RecvBuf: Sized {
    /// The invariant that the operations keep.
    spec fn inv(&self) -> bool;

    /// The state of a new receive buffer.
    spec fn fresh(&self) -> bool;

    /// A new, empty receive buffer.
    fn new() -> (r: Self)
        ensures
            r.inv(),
            r.fresh(),
    ;

    /// Places a received entry and tries to authenticate it.
    fn insert(&mut self, node: BufferEntry) -> (r: Result<(), Error>)
        requires
            old(self).inv(),
            node.wf(),
        ensures
            final(self).inv(),
    ;

    /// Tries to authenticate `id`, then its predecessors.
    fn authenticate_node(&mut self, id: u64) -> (r: Result<(), Error>)
        requires
            old(self).inv(),
        ensures
            final(self).inv(),
    ;
}

impl SendBuffer for Buffer {
    open spec fn inv(&self) -> bool {
        self.wf() && self.send_wf()
    }

    open spec fn fresh(&self) -> bool {
        &&& self.lowest() == 0
        &&& self.latest() is None
        &&& self.cursor() == 3
        &&& self.pop_state() == State::ReadySent
        &&& forall|j: int| #[trigger] self.entry_at(j) is None
    }

    fn new() -> (r: Self) {
        Buffer::with_mode(true)
    }

    fn insert_in_sequence(&mut self, node: BufferEntry) -> (r: Result<(), Error>)
        ensures
            !old(self).in_window(node.id as int) ==> r == Err::<(), Error>(Error::OutOfBoundId),
            old(self).in_window(node.id as int) && !follows(old(self).latest(), node.id)
                ==> r == Err::<(), Error>(Error::IllegalInsert),
            r is Ok <==> old(self).in_window(node.id as int) && follows(old(self).latest(), node.id),
            r is Ok ==> final(self).latest() == Some(node.id)
                && final(self).entry_at(node.id as int) is Some
                && final(self).entry_at(node.id as int)->Some_0.payload == node.payload,
            r is Err ==> *final(self) == *old(self),
    {
        Buffer::insert_in_sequence(self, node)
    }

    fn forwards_hash(&mut self, id: u64) -> (r: Result<(), Error>)
        ensures
            Buffer::same_scalars(*old(self), *final(self)),
            ({
                let slot = old(self).slots()[id as int % 32];
                &&& slot is None ==> r is Ok && *final(self) == *old(self)
                &&& slot is Some && slot->Some_0.state == State::ReadySent ==> r is Ok && *final(self) == *old(self)
                &&& slot is Some && slot->Some_0.state != State::ReadySent && slot->Some_0.id != id
                    ==> r == Err::<(), Error>(Error::OutOfBoundId) && *final(self) == *old(self)
                &&& slot is Some && slot->Some_0.state != State::ReadySent && slot->Some_0.id == id
                    && slot->Some_0.hashes.len() != slot->Some_0.dependencies.len()
                    ==> r == Err::<(), Error>(Error::MissingHash) && *final(self) == *old(self)
            }),
            forwardable(*old(self), id) && !succs_in_window(*old(self), id)
                ==> r == Err::<(), Error>(Error::OutOfBoundId) && *final(self) == *old(self),
            forwardable(*old(self), id) && succs_in_window(*old(self), id) && !succs_have_room(*old(self), id)
                ==> r == Err::<(), Error>(Error::IllegalInsert) && *final(self) == *old(self),
            forwardable(*old(self), id) && succs_in_window(*old(self), id) && succs_have_room(*old(self), id)
                ==> r is Ok && forwarded(*old(self), *final(self), id),
    {
        Buffer::forwards_hash(self, id)
    }
}

impl RecvBuf for Buffer {
    open spec fn inv(&self) -> bool {
        self.wf()
    }

    open spec fn fresh(&self) -> bool {
        &&& self.lowest() == 0
        &&& self.latest() is None
        &&& self.cursor() == 3
        &&& self.pop_state() == State::Authenticated
        &&& forall|j: int| #[trigger] self.entry_at(j) is None
    }

    fn new() -> (r: Self) {
        Buffer::with_mode(false)
    }

    fn insert(&mut self, node: BufferEntry) -> (r: Result<(), Error>)
        ensures
            !old(self).in_window(node.id as int) ==> r == Err::<(), Error>(Error::OutOfBoundId)
                && *final(self) == *old(self),
            old(self).in_window(node.id as int) && old(self).entry_at(node.id as int) is Some
                ==> r is Ok && *final(self) == *old(self),
            old(self).in_window(node.id as int) && old(self).entry_at(node.id as int) is None ==> {
                &&& exists|m: Buffer| #[trigger] placed(*old(self), m, node)
                    && auth_frame(m, *final(self)) && auth_outcome(m, *final(self), node.id, r)
                &&& final(self).entry_at(node.id as int) is Some
                &&& same_but_state(final(self).entry_at(node.id as int)->Some_0, node)
                &&& node.signature is Some ==> final(self).auth_at(node.id as int)
            },
    {
        Buffer::insert(self, node)
    }

    fn authenticate_node(&mut self, id: u64) -> (r: Result<(), Error>)
        ensures
            auth_frame(*old(self), *final(self)),
            auth_outcome(*old(self), *final(self), id, r),
            all_consistent(*old(self)) && !has_rejected(*old(self)) ==> r is Ok && !has_rejected(*final(self)),
    {
        Buffer::authenticate_node(self, id)
    }
}

/// Packet `p` has handed its hash on: it was popped, or it is held `ReadySent`.
pub open spec fn handed_on(b: Buffer, p: u64) -> bool {
    p < b.lowest() || (b.entry_at(p as int) is Some && b.entry_at(p as int)->Some_0.state == State::ReadySent)
}

/// How many of `ps` have handed their hashes on.
pub open spec fn fwd_count(b: Buffer, ps: Seq<u64>) -> nat
    decreases ps.len(),
{
    if ps.len() == 0 {
        0
    } else {
        fwd_count(b, ps.drop_last()) + if handed_on(b, ps.last()) { 1nat } else { 0nat }
    }
}

proof fn lemma_fwd_count_mono(a: Buffer, b: Buffer, ps: Seq<u64>)
    requires
        forall|i: int| 0 <= i < ps.len() && #[trigger] handed_on(a, ps[i]) ==> handed_on(b, ps[i]),
    ensures
        fwd_count(a, ps) <= fwd_count(b, ps),
        (exists|i: int| 0 <= i < ps.len() && !handed_on(a, ps[i]) && handed_on(b, ps[i]))
            ==> fwd_count(a, ps) < fwd_count(b, ps),
    decreases ps.len(),
{
    if ps.len() > 0 {
        let init = ps.drop_last();
        assert forall|i: int| 0 <= i < init.len() && #[trigger] handed_on(a, init[i]) implies handed_on(b, init[i]) by {
            assert(init[i] == ps[i]);
        }
        lemma_fwd_count_mono(a, b, init);
        if exists|i: int| 0 <= i < ps.len() && !handed_on(a, ps[i]) && handed_on(b, ps[i]) {
            let i = choose|i: int| 0 <= i < ps.len() && !handed_on(a, ps[i]) && handed_on(b, ps[i]);
            if i < ps.len() - 1 {
                assert(init[i] == ps[i]);
            }
        }
    }
}

proof fn lemma_fwd_count_full(b: Buffer, ps: Seq<u64>)
    ensures
        fwd_count(b, ps) <= ps.len(),
        fwd_count(b, ps) == ps.len() ==> forall|i: int| 0 <= i < ps.len() ==> #[trigger] handed_on(b, ps[i]),
    decreases ps.len(),
{
    if ps.len() > 0 {
        let init = ps.drop_last();
        lemma_fwd_count_full(b, init);
        if fwd_count(b, ps) == ps.len() {
            assert forall|i: int| 0 <= i < ps.len() implies #[trigger] handed_on(b, ps[i]) by {
                if i < ps.len() - 1 {
                    assert(init[i] == ps[i]);
                }
            }
        }
    }
}

impl Buffer {
    /// The send buffer's invariant: no entry holds more hashes than it has predecessors
    /// that handed theirs on.
    pub open spec fn send_wf(&self) -> bool {
        &&& self.pop_state() == State::ReadySent
        &&& forall|j: int| #[trigger] self.entry_at(j) is Some
            ==> self.entry_at(j)->Some_0.hashes.len() <= fwd_count(*self, predecessors(j as u64))
    }

    /// `b` keeps the send invariant of `a` when nobody stops having handed its hash on
    /// and no entry gained hashes.
    proof fn lemma_send_kept(a: Buffer, b: Buffer)
        requires
            a.send_wf(),
            b.pop_state() == State::ReadySent,
            forall|p: u64| #[trigger] handed_on(a, p) ==> handed_on(b, p),
            forall|j: int| #[trigger] b.entry_at(j) is Some ==> b.entry_at(j)->Some_0.hashes.len() <= hashes_at(a, j).len(),
        ensures
            b.send_wf(),
    {
        assert forall|j: int| #[trigger] b.entry_at(j) is Some
            implies b.entry_at(j)->Some_0.hashes.len() <= fwd_count(b, predecessors(j as u64)) by {
            lemma_fwd_count_mono(a, b, predecessors(j as u64));
        }
    }
}

proof fn lemma_forward_send(a: Buffer, b: Buffer, id: u64)
    requires
        a.wf(),
        b.wf(),
        a.send_wf(),
        Buffer::same_scalars(a, b),
        forwardable(a, id),
        succs_in_window(a, id),
        forwarded(a, b, id),
    ensures
        b.send_wf(),
{
    a.lemma_wf();
    let ss = successors(id);
    assert forall|p: u64| #[trigger] handed_on(a, p) implies handed_on(b, p) by {
        if p >= a.lowest() && p != id {
            if ss.contains(p) {
                let k = choose|k: int| 0 <= k < ss.len() && ss[k] == p;
                assert(b.entry_at(ss[k] as int) is Some);
            } else {
                assert(is_id(p as int));
            }
        }
    }
    assert(!handed_on(a, id) && handed_on(b, id));
    assert forall|j: int| #[trigger] b.entry_at(j) is Some
        implies b.entry_at(j)->Some_0.hashes.len() <= fwd_count(b, predecessors(j as u64)) by {
        let ps = predecessors(j as u64);
        lemma_fwd_count_mono(a, b, ps);
        if j == id {
        } else if ss.contains(j as u64) {
            let k = choose|k: int| 0 <= k < ss.len() && ss[k] == j as u64;
            assert(b.entry_at(ss[k] as int) is Some);
            lemma_graph_inverse(id, j as u64);
            let i = choose|i: int| 0 <= i < ps.len() && ps[i] == id;
            assert(!handed_on(a, ps[i]) && handed_on(b, ps[i]));
            let hh = choose|hh: PktHash| hh@ == total_hash(payload_bytes(a.entry_at(id as int)->Some_0.payload),
                a.entry_at(id as int)->Some_0.hashes@) && after_hash(a, ss[k] as int, hh, b.entry_at(ss[k] as int)->Some_0);
            if a.entry_at(j) is Some {
                assert(a.entry_at(j)->Some_0.hashes.len() <= fwd_count(a, ps));
            }
        } else {
            assert(is_id(j));
            assert(b.entry_at(j) == a.entry_at(j));
        }
    }
}

/// No packet becomes ready to be sent before all its predecessors: in a send buffer,
/// every predecessor of a `ReadySent` entry was popped or is held `ReadySent`.
pub proof fn lemma_ready_after_predecessors(b: Buffer, id: u64)
    requires
        b.wf(),
        b.send_wf(),
        b.entry_at(id as int) is Some,
        b.entry_at(id as int)->Some_0.state == State::ReadySent,
    ensures
        forall|k: int| 0 <= k < predecessors(id).len() ==> #[trigger] handed_on(b, predecessors(id)[k]),
{
    b.lemma_wf();
    lemma_fwd_count_full(b, predecessors(id));
}

} // verus!
