//! Wire format of an entry, written after its payload and read back from the tail:
//! the predecessor hashes, the signature if any, then the length of those two as a
//! varint with its bytes reversed, then the identifier the same way.
use vstd::prelude::*;
use crate::entry::BufferEntry;
use crate::graph::{predecessors, predecessor_ids, lemma_degree};
use crate::varint::{varint_bytes, varint_value, varint_len, encode_varint, decode_varint, lemma_varint_bytes, lemma_varint_prefix, lemma_varint_len_bound};
use crate::{Error, PktHash, Signature, State};

verus! {

/// The hashes, one after the other.
pub open spec fn flat_hashes(hs: Seq<PktHash>) -> Seq<u8>
    decreases hs.len(),
{
    if hs.len() == 0 {
        Seq::<u8>::empty()
    } else {
        flat_hashes(hs.drop_last()) + hs.last()@
    }
}

/// The signature's bytes; none when there is no signature.
pub open spec fn sig_bytes(s: Option<Signature>) -> Seq<u8> {
    match s {
        Some(x) => x@,
        None => Seq::<u8>::empty(),
    }
}

/// Length of the hash and signature region of `e`.
pub open spec fn region_len(e: BufferEntry) -> nat {
    32 * e.hashes@.len() + if e.signature is Some { 64nat } else { 0nat }
}

/// What `encode` appends after the payload.
pub open spec fn wire_tail(e: BufferEntry) -> Seq<u8> {
    flat_hashes(e.hashes@) + sig_bytes(e.signature) + varint_bytes(region_len(e)).reverse()
        + varint_bytes(e.id as nat).reverse()
}

/// The last `min(8, len)` bytes of `b`, last first.
pub open spec fn tail_bytes(b: Seq<u8>) -> Seq<u8> {
    let k = if b.len() < 8 { b.len() } else { 8 };
    b.subrange(b.len() - k, b.len() as int).reverse()
}

/// The varint that ends `b`, read backwards over at most eight bytes: its value and
/// its length.
pub open spec fn read_back(b: Seq<u8>) -> Option<(nat, nat)> {
    let t = tail_bytes(b);
    let n = varint_len(t);
    if n == 0 {
        None
    } else {
        Some((varint_value(t.take(n as int)), n))
    }
}

/// Where the parts of an entry lie in `b`: its identifier, the length of its payload
/// and the length of its hash and signature region; `None` when `b` is malformed.
pub open spec fn layout(b: Seq<u8>) -> Option<(nat, int, int)> {
    match read_back(b) {
        None => None,
        Some((id, n1)) => match read_back(b.take(b.len() - n1)) {
            None => None,
            Some((blen, n2)) => {
                let avail = b.len() - n1 - n2;
                let k = predecessors(id as u64).len();
                if blen >= avail {
                    None
                } else if blen != 32 * k && blen != 32 * k + 64 {
                    None
                } else {
                    Some((id, avail - blen, blen as int))
                }
            },
        },
    }
}

/// `e` is the entry that `b` holds, laid out as `layout(b)` says.
pub open spec fn decodes_to(b: Seq<u8>, e: BufferEntry) -> bool {
    let (id, split, blen) = layout(b)->Some_0;
    let k = predecessors(id as u64).len();
    &&& layout(b) is Some
    &&& e.id == id
    &&& e.payload is Some
    &&& e.payload->Some_0@ == b.take(split)
    &&& e.hashes@.len() == k
    &&& forall|m: int| 0 <= m < k ==> #[trigger] e.hashes@[m]@ == b.subrange(split + 32 * m, split + 32 * m + 32)
    &&& (e.signature is Some <==> blen == 32 * k + 64)
    &&& e.signature matches Some(s) ==> s@ == b.subrange(split + 32 * k, split + 32 * k + 64)
    &&& e.dependencies@ == predecessors(e.id)
    &&& e.state == State::NotReady
}

fn put(buf: &mut Vec<u8>, data: &[u8])
    ensures
        final(buf)@ == old(buf)@ + data@,
{
    let mut i: usize = 0;
    while i < data.len()
        invariant
            0 <= i <= data@.len(),
            buf@ == old(buf)@ + data@.take(i as int),
        decreases data@.len() - i,
    {
        buf.push(data[i]);
        i += 1;
        assert(buf@ =~= old(buf)@ + data@.take(i as int));
    }
    assert(data@.take(data@.len() as int) =~= data@);
}

fn put_reversed(buf: &mut Vec<u8>, data: &Vec<u8>)
    ensures
        final(buf)@ == old(buf)@ + data@.reverse(),
{
    let mut i: usize = data.len();
    while i > 0
        invariant
            0 <= i <= data@.len(),
            buf@ == old(buf)@ + data@.subrange(i as int, data@.len() as int).reverse(),
        decreases i,
    {
        i -= 1;
        buf.push(data[i]);
        assert(buf@ =~= old(buf)@ + data@.subrange(i as int, data@.len() as int).reverse());
    }
    assert(data@.subrange(0, data@.len() as int) =~= data@);
}

/// Reads back the varint that ends `buf[..end]`.
fn read_varint_back(buf: &[u8], end: usize) -> (r: Option<(u64, usize)>)
    requires
        end <= buf@.len(),
    ensures
        r is None <==> read_back(buf@.take(end as int)) is None,
        r matches Some((v, n)) ==> read_back(buf@.take(end as int)) == Some((v as nat, n as nat))
            && 1 <= n <= end && n <= 8,
{
    let k: usize = if end < 8 { end } else { 8 };
    let ghost b = buf@.take(end as int);
    let mut tmp: Vec<u8> = Vec::new();
    let mut i: usize = 0;
    while i < k
        invariant
            k <= end <= buf@.len(),
            k == (if b.len() < 8 { b.len() } else { 8 }),
            b == buf@.take(end as int),
            0 <= i <= k,
            tmp@.len() == i,
            forall|j: int| 0 <= j < i ==> tmp@[j] == buf@[end - 1 - j],
        decreases k - i,
    {
        tmp.push(buf[end - 1 - i]);
        i += 1;
    }
    assert(tmp@ =~= tail_bytes(b));
    proof {
        lemma_varint_len_bound(tmp@);
    }
    decode_varint(tmp.as_slice())
}

fn read_hash(buf: &[u8], at: usize) -> (r: PktHash)
    requires
        at + 32 <= buf@.len(),
    ensures
        r@ == buf@.subrange(at as int, at + 32),
{
    let _n = buf.len();
    let mut h = [0u8; 32];
    let mut i: usize = 0;
    while i < 32
        invariant
            at + 32 <= buf@.len(),
            buf@.len() <= usize::MAX,
            0 <= i <= 32,
            h@.len() == 32,
            forall|j: int| 0 <= j < i ==> h@[j] == buf@[at + j],
        decreases 32 - i,
    {
        h[i] = buf[at + i];
        i += 1;
    }
    assert(h@ =~= buf@.subrange(at as int, at + 32));
    h
}

fn read_signature(buf: &[u8], at: usize) -> (r: Signature)
    requires
        at + 64 <= buf@.len(),
    ensures
        r@ == buf@.subrange(at as int, at + 64),
{
    let _n = buf.len();
    let mut s = [0u8; 64];
    let mut i: usize = 0;
    while i < 64
        invariant
            at + 64 <= buf@.len(),
            buf@.len() <= usize::MAX,
            0 <= i <= 64,
            s@.len() == 64,
            forall|j: int| 0 <= j < i ==> s@[j] == buf@[at + j],
        decreases 64 - i,
    {
        s[i] = buf[at + i];
        i += 1;
    }
    assert(s@ =~= buf@.subrange(at as int, at + 64));
    s
}

impl BufferEntry {
    /// Appends the wire form of this entry to `buf`, which already holds its payload.
    /// The identifier must fit the eight bytes that a reader reads back.
    pub fn encode(&self, buf: &mut Vec<u8>)
        requires
            self.wf(),
            self.id < 0x100000000000000,
        ensures
            final(buf)@ == old(buf)@ + wire_tail(*self),
    {
        proof {
            lemma_degree(self.id);
        }
        let mut i: usize = 0;
        while i < self.hashes.len()
            invariant
                0 <= i <= self.hashes@.len(),
                buf@ == old(buf)@ + flat_hashes(self.hashes@.take(i as int)),
            decreases self.hashes@.len() - i,
        {
            assert(self.hashes@.take(i as int + 1).drop_last() =~= self.hashes@.take(i as int));
            put(buf, self.hashes[i].as_slice());
            i += 1;
        }
        assert(self.hashes@.take(self.hashes@.len() as int) =~= self.hashes@);
        let mut bytes_len: u64 = 32 * (self.hashes.len() as u64);
        match &self.signature {
            Some(s) => {
                put(buf, s.as_slice());
                bytes_len = bytes_len + 64;
            },
            None => {},
        }
        let len_bytes = encode_varint(bytes_len);
        put_reversed(buf, &len_bytes);
        let id_bytes = encode_varint(self.id);
        put_reversed(buf, &id_bytes);
        assert(buf@ =~= old(buf)@ + wire_tail(*self));
    }

    /// Reads an entry back from its wire form: the identifier from the tail, then the
    /// length of the hash and signature region, then as many hashes as the identifier
    /// has predecessors, then a signature if 64 bytes remain; the rest is the payload,
    /// which must not be empty. Anything else is a `Decoding` error.
    pub fn decode(buf: &[u8]) -> (r: Result<BufferEntry, Error>)
        ensures
            r is Ok <==> layout(buf@) is Some,
            r matches Ok(e) ==> decodes_to(buf@, e),
            r is Err ==> r == Err::<BufferEntry, Error>(Error::Decoding),
    {
        let total = buf.len();
        assert(buf@.take(total as int) =~= buf@);
        let (id, n1) = match read_varint_back(buf, total) {
            Some(x) => x,
            None => {
                return Err(Error::Decoding);
            },
        };
        let (blen, n2) = match read_varint_back(buf, total - n1) {
            Some(x) => x,
            None => {
                return Err(Error::Decoding);
            },
        };
        assert(buf@.take(total - n1) == buf@.take(buf@.len() - n1));
        let avail = total - n1 - n2;
        if blen >= avail as u64 {
            return Err(Error::Decoding);
        }
        let split = avail - blen as usize;
        let deps = predecessor_ids(id);
        proof {
            lemma_degree(id);
        }
        let k = deps.len();
        let region = blen as usize;
        if region != 32 * k && region != 32 * k + 64 {
            return Err(Error::Decoding);
        }
        let mut hashes: Vec<PktHash> = Vec::new();
        let mut m: usize = 0;
        while m < k
            invariant
                buf@.len() == total,
                k == predecessors(id).len(),
                k <= 5,
                split + region <= buf@.len(),
                region >= 32 * k,
                0 <= m <= k,
                hashes@.len() == m,
                forall|j: int| 0 <= j < m ==> #[trigger] hashes@[j]@ == buf@.subrange(split + 32 * j, split + 32 * j + 32),
            decreases k - m,
        {
            let h = read_hash(buf, split + 32 * m);
            hashes.push(h);
            m += 1;
        }
        let signature = if region == 32 * k + 64 {
            Some(read_signature(buf, split + 32 * k))
        } else {
            None
        };
        let mut payload: Vec<u8> = Vec::new();
        let mut i: usize = 0;
        while i < split
            invariant
                split <= buf@.len(),
                0 <= i <= split,
                payload@ == buf@.take(i as int),
            decreases split - i,
        {
            payload.push(buf[i]);
            i += 1;
            assert(payload@ =~= buf@.take(i as int));
        }
        Ok(BufferEntry {
            hashes,
            signature,
            id,
            payload: Some(payload),
            dependencies: deps,
            state: State::NotReady,
        })
    }
}

proof fn lemma_read_back_suffix(x: Seq<u8>, v: Seq<u8>)
    requires
        1 <= v.len() <= 8,
        varint_len(v) == v.len(),
    ensures
        read_back(x + v.reverse()) == Some((varint_value(v), v.len())),
{
    let b = x + v.reverse();
    let k = if b.len() < 8 { b.len() } else { 8 };
    let t = tail_bytes(b);
    let w = x.subrange(x.len() - (k - v.len()), x.len() as int).reverse();
    assert(t =~= v + w);
    lemma_varint_prefix(v, w);
}

proof fn lemma_flat_hashes(hs: Seq<PktHash>)
    ensures
        flat_hashes(hs).len() == 32 * hs.len(),
        forall|m: int| 0 <= m < hs.len() ==> #[trigger] flat_hashes(hs).subrange(32 * m, 32 * m + 32) == hs[m]@,
    decreases hs.len(),
{
    if hs.len() > 0 {
        let init = hs.drop_last();
        lemma_flat_hashes(init);
        assert forall|m: int| 0 <= m < hs.len() implies #[trigger] flat_hashes(hs).subrange(32 * m, 32 * m + 32) == hs[m]@ by {
            if m < hs.len() - 1 {
                assert(flat_hashes(hs).subrange(32 * m, 32 * m + 32) =~= flat_hashes(init).subrange(32 * m, 32 * m + 32));
                assert(init[m] == hs[m]);
            } else {
                assert(flat_hashes(hs).subrange(32 * m, 32 * m + 32) =~= hs.last()@);
            }
        }
    }
}

/// Round trip: the bytes of a non-empty payload followed by what `encode` appends for
/// an entry that holds all its predecessor hashes are well formed, and what they
/// decode to has the same identifier, payload, hashes in order and signature.
pub proof fn lemma_codec_round_trip(e: BufferEntry, payload: Seq<u8>, d: BufferEntry)
    requires
        e.wf(),
        e.hashes@.len() == e.dependencies@.len(),
        e.id < 0x100000000000000,
        payload.len() > 0,
        decodes_to(payload + wire_tail(e), d),
    ensures
        layout(payload + wire_tail(e)) is Some,
        d.id == e.id,
        d.payload is Some && d.payload->Some_0@ == payload,
        d.hashes@.len() == e.hashes@.len(),
        forall|m: int| 0 <= m < e.hashes@.len() ==> #[trigger] d.hashes@[m]@ == e.hashes@[m]@,
        d.signature is Some <==> e.signature is Some,
        d.signature is Some ==> d.signature->Some_0@ == e.signature->Some_0@,
        d.dependencies@ == e.dependencies@,
{
    lemma_codec_well_formed(e, payload);
    let b = payload + wire_tail(e);
    let f = flat_hashes(e.hashes@);
    let sg = sig_bytes(e.signature);
    let k = e.hashes@.len();
    lemma_flat_hashes(e.hashes@);
    assert(b.take(payload.len() as int) =~= payload);
    assert forall|m: int| 0 <= m < k implies #[trigger] d.hashes@[m]@ == e.hashes@[m]@ by {
        assert(b.subrange(payload.len() + 32 * m, payload.len() + 32 * m + 32) =~= f.subrange(32 * m, 32 * m + 32));
    }
    if e.signature is Some {
        assert(b.subrange(payload.len() + 32 * k as int, payload.len() + 32 * k as int + 64) =~= sg);
    }
}

/// The bytes of a non-empty payload followed by what `encode` appends for an entry
/// that holds all its predecessor hashes are laid out as that entry.
pub proof fn lemma_codec_well_formed(e: BufferEntry, payload: Seq<u8>)
    requires
        e.wf(),
        e.hashes@.len() == e.dependencies@.len(),
        e.id < 0x100000000000000,
        payload.len() > 0,
    ensures
        layout(payload + wire_tail(e)) == Some((e.id as nat, payload.len() as int, region_len(e) as int)),
{
    lemma_degree(e.id);
    lemma_flat_hashes(e.hashes@);
    let b = payload + wire_tail(e);
    let f = flat_hashes(e.hashes@);
    let sg = sig_bytes(e.signature);
    let v1 = varint_bytes(region_len(e));
    let v2 = varint_bytes(e.id as nat);
    lemma_varint_bytes(region_len(e));
    lemma_varint_bytes(e.id as nat);
    let x1 = payload + f + sg + v1.reverse();
    assert(b =~= x1 + v2.reverse());
    lemma_read_back_suffix(x1, v2);
    assert(b.take(b.len() - v2.len()) =~= x1);
    let x0 = payload + f + sg;
    assert(x1 =~= x0 + v1.reverse());
    lemma_read_back_suffix(x0, v1);
    assert(sg.len() == if e.signature is Some { 64int } else { 0int });
}

} // verus!
