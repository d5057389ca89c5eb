//! One packet as the buffers hold it.
use vstd::prelude::*;
use crate::graph::{predecessors, successors, predecessor_ids, successor_ids};
use crate::{Error, PktHash, Signature, State};

verus! {

/// A buffered packet: identifier, payload, the predecessor hashes collected so far,
/// an optional signature, the cached predecessor identifiers and a lifecycle state.
#[derive(Debug, PartialEq, Eq)]
pub struct BufferEntry {
    /// Predecessor hashes, in the order they arrived.
    pub hashes: Vec<PktHash>,
    /// Optional digital signature.
    pub signature: Option<Signature>,
    /// Packet identifier.
    pub id: u64,
    /// Packet payload.
    pub payload: Option<Vec<u8>>,
    /// Identifiers of the predecessors of `id`.
    pub dependencies: Vec<u64>,
    /// Lifecycle state.
    pub state: State,
}

/// One byte absorbed into lane `lane` of the digest state.
pub open spec fn mix(acc: Seq<u8>, lane: int, b: u8) -> Seq<u8> {
    acc.update(lane, ((acc[lane] as int * 31 + b as int + 1) % 256) as u8)
}

/// `data` absorbed byte after byte, its first byte into lane `lane`, the next ones
/// into the following lanes, cyclically.
pub open spec fn absorb(acc: Seq<u8>, lane: int, data: Seq<u8>) -> Seq<u8>
    decreases data.len(),
{
    if data.len() == 0 {
        acc
    } else {
        mix(absorb(acc, lane, data.drop_last()), (lane + data.len() - 1) % 32, data.last())
    }
}

/// Each hash of `hs` absorbed in turn; each is 32 bytes, so each starts at `lane`.
pub open spec fn absorb_hashes(acc: Seq<u8>, lane: int, hs: Seq<PktHash>) -> Seq<u8>
    decreases hs.len(),
{
    if hs.len() == 0 {
        acc
    } else {
        absorb(absorb_hashes(acc, lane, hs.drop_last()), lane, hs.last()@)
    }
}

/// Digest of the payload followed by each child hash in order.
pub open spec fn total_hash(payload: Seq<u8>, hashes: Seq<PktHash>) -> Seq<u8> {
    absorb_hashes(absorb(Seq::new(32, |i: int| 0u8), 0, payload), (payload.len() % 32) as int, hashes)
}

/// Whether `h` is, byte for byte, one of `hs`.
pub open spec fn holds_hash(hs: Seq<PktHash>, h: Seq<u8>) -> bool {
    exists|j: int| 0 <= j < hs.len() && #[trigger] hs[j]@ == h
}

/// The payload bytes of an entry; an absent payload reads as empty.
pub open spec fn payload_bytes(p: Option<Vec<u8>>) -> Seq<u8> {
    match p {
        Some(v) => v@,
        None => Seq::<u8>::empty(),
    }
}

fn absorb_into(acc: &mut [u8; 32], lane: usize, data: &[u8])
    requires
        lane < 32,
    ensures
        final(acc)@ == absorb(old(acc)@, lane as int, data@),
{
    let ghost start = acc@;
    let mut k: usize = lane;
    let mut i: usize = 0;
    while i < data.len()
        invariant
            0 <= i <= data.len(),
            k == (lane + i) % 32,
            acc@.len() == 32,
            acc@ == absorb(start, lane as int, data@.take(i as int)),
        decreases data.len() - i,
    {
        assert(data@.take(i as int + 1).drop_last() =~= data@.take(i as int));
        let b = data[i];
        let v = acc[k];
        acc[k] = ((v as u32 * 31 + b as u32 + 1) % 256) as u8;
        assert(acc@ =~= mix(absorb(start, lane as int, data@.take(i as int)), k as int, b));
        i += 1;
        k = (k + 1) % 32;
    }
    assert(data@.take(data.len() as int) =~= data@);
}

/// Digest of `payload` followed by each of `hashes` in order.
pub(crate) fn digest(payload: &Option<Vec<u8>>, hashes: &Vec<PktHash>) -> (r: PktHash)
    ensures
        r@ == total_hash(payload_bytes(*payload), hashes@),
{
    let mut acc = [0u8; 32];
    assert(acc@ =~= Seq::new(32, |i: int| 0u8));
    let mut len: usize = 0;
    match payload {
        Some(p) => {
            absorb_into(&mut acc, 0, p.as_slice());
            len = p.len();
        },
        None => {},
    }
    let lane = len % 32;
    let ghost start = acc@;
    let mut i: usize = 0;
    while i < hashes.len()
        invariant
            0 <= i <= hashes.len(),
            lane < 32,
            lane == payload_bytes(*payload).len() % 32,
            start == absorb(Seq::new(32, |i: int| 0u8), 0, payload_bytes(*payload)),
            acc@ == absorb_hashes(start, lane as int, hashes@.take(i as int)),
        decreases hashes.len() - i,
    {
        assert(hashes@.take(i as int + 1).drop_last() =~= hashes@.take(i as int));
        let h: &PktHash = &hashes[i];
        absorb_into(&mut acc, lane, h.as_slice());
        i += 1;
    }
    assert(hashes@.take(hashes.len() as int) =~= hashes@);
    acc
}

impl BufferEntry {
    /// The entry's own invariant: cached predecessors, and no more hashes than them.
    pub open spec fn wf(&self) -> bool {
        &&& self.dependencies@ == predecessors(self.id)
        &&& self.hashes.len() <= self.dependencies.len()
    }

    /// A fresh entry: no hashes, no signature, no payload, `NotReady`.
    pub fn new_id(id: u64) -> (r: Self)
        ensures
            r.id == id,
            r.hashes@.len() == 0,
            r.signature is None,
            r.payload is None,
            r.dependencies@ == predecessors(id),
            r.state == State::NotReady,
            r.wf(),
    {
        BufferEntry {
            hashes: Vec::new(),
            signature: None,
            id,
            payload: None,
            dependencies: Self::dependencies_in(id),
            state: State::NotReady,
        }
    }

    /// A fresh entry that carries `payload`.
    pub fn new(id: u64, payload: Vec<u8>) -> (r: Self)
        ensures
            r.id == id,
            r.hashes@.len() == 0,
            r.signature is None,
            r.payload == Some(payload),
            r.dependencies@ == predecessors(id),
            r.state == State::NotReady,
            r.wf(),
    {
        let mut out = Self::new_id(id);
        out.payload = Some(payload);
        out
    }

    /// Identifiers of the packets that must receive this packet's hash.
    pub fn dependencies_out(&self) -> (r: Vec<u64>)
        ensures
            r@ == successors(self.id),
    {
        successor_ids(self.id)
    }

    /// Identifiers of the packets whose hashes this packet `id` must carry.
    pub fn dependencies_in(id: u64) -> (r: Vec<u64>)
        ensures
            r@ == predecessors(id),
    {
        predecessor_ids(id)
    }

    /// The lifecycle state.
    pub fn state(&self) -> (r: State)
        ensures
            r == self.state,
    {
        self.state
    }

    /// Digest of the payload followed by each child hash in order: a light mixing
    /// digest that depends on every byte, not a cryptographic hash.
    pub fn compute_total_hash(&self) -> (r: PktHash)
        ensures
            r@ == total_hash(payload_bytes(self.payload), self.hashes@),
    {
        digest(&self.payload, &self.hashes)
    }

    /// `Ok` when this entry is authenticated and `hash` is among its hashes;
    /// `NotAuthenticated` when it is not authenticated; `BadAuthentication` otherwise.
    pub fn compare_hash(&self, hash: &PktHash) -> (r: Result<(), Error>)
        ensures
            self.state != State::Authenticated ==> r == Err::<(), Error>(Error::NotAuthenticated),
            self.state == State::Authenticated ==> (r is Ok <==> holds_hash(self.hashes@, hash@)),
            self.state == State::Authenticated && r is Err ==> r == Err::<(), Error>(Error::BadAuthentication),
    {
        if self.state != State::Authenticated {
            return Err(Error::NotAuthenticated);
        }
        let mut i: usize = 0;
        while i < self.hashes.len()
            invariant
                0 <= i <= self.hashes.len(),
                self.state == State::Authenticated,
                forall|j: int| 0 <= j < i ==> self.hashes@[j]@ != hash@,
            decreases self.hashes.len() - i,
        {
            if same_hash(&self.hashes[i], hash) {
                assert(self.hashes@[i as int]@ == hash@);
                return Ok(());
            }
            i += 1;
        }
        Err(Error::BadAuthentication)
    }
}

/// Whether two hashes are equal, byte for byte.
pub fn same_hash(a: &PktHash, b: &PktHash) -> (r: bool)
    ensures
        r <==> a@ == b@,
{
    let mut i: usize = 0;
    while i < 32
        invariant
            0 <= i <= 32,
            forall|j: int| 0 <= j < i ==> a@[j] == b@[j],
        decreases 32 - i,
    {
        if a[i] != b[i] {
            return false;
        }
        i += 1;
    }
    assert(a@ =~= b@);
    true
}

} // verus!
