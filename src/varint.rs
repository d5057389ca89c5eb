//! Variable-length unsigned integers: seven bits per byte, least significant group
//! first, the high bit set on every byte but the last.
use vstd::prelude::*;
use integer_encoding::VarInt;

verus! {

/// The canonical encoding of `v`.
pub open spec fn varint_bytes(v: nat) -> Seq<u8>
    decreases v,
{
    if v < 128 {
        seq![v as u8]
    } else {
        seq![(v % 128 + 128) as u8] + varint_bytes(v / 128)
    }
}

/// The value of a sequence of groups, least significant first.
pub open spec fn varint_value(s: Seq<u8>) -> nat
    decreases s.len(),
{
    if s.len() == 0 {
        0
    } else {
        (s[0] % 128) as nat + 128 * varint_value(s.drop_first())
    }
}

/// Length of the varint that starts `s`: up to and including the first byte below
/// 128, or 0 when every byte has its high bit set.
pub open spec fn varint_len(s: Seq<u8>) -> nat
    decreases s.len(),
{
    if s.len() == 0 {
        0
    } else if s[0] < 128 {
        1
    } else {
        let n = varint_len(s.drop_first());
        if n == 0 {
            0
        } else {
            n + 1
        }
    }
}

/// Relies on `VarInt::encode_var` for `u64`, which writes these bytes at the start of
/// a slice that has room for them (ten bytes always suffice) and returns their count.
#[verifier::external_body]
pub(crate) fn encode_varint(v: u64) -> (r: Vec<u8>)
    ensures
        r@ == varint_bytes(v as nat),
{
    let mut tmp = [0u8; 10];
    let n = v.encode_var(&mut tmp);
    tmp[..n].to_vec()
}

/// Relies on `VarInt::decode_var` for `u64`: on at most eight bytes it reads up to the
/// first byte below 128 and returns the value and the count of bytes read, or `None`
/// when there is no such byte.
#[verifier::external_body]
pub(crate) fn decode_varint(src: &[u8]) -> (r: Option<(u64, usize)>)
    requires
        src@.len() <= 8,
    ensures
        r is None <==> varint_len(src@) == 0,
        r matches Some((v, n)) ==> n == varint_len(src@) && v == varint_value(src@.take(n as int)),
{
    u64::decode_var(src)
}

proof fn lemma_small_len_rec(v: nat, k: nat)
    requires
        k >= 1,
        v < pow128(k),
    ensures
        varint_bytes(v).len() <= k,
    decreases v,
{
    if v >= 128 {
        assert(k >= 2) by {
            if k == 1 {
                assert(pow128(1) == 128 * pow128(0));
            }
        }
        assert(pow128(k) == 128 * pow128((k - 1) as nat));
        assert(v / 128 < pow128((k - 1) as nat)) by (nonlinear_arith)
            requires
                v < 128 * pow128((k - 1) as nat),
        ;
        lemma_small_len_rec(v / 128, (k - 1) as nat);
    }
}

spec fn pow128(k: nat) -> nat
    decreases k,
{
    if k == 0 {
        1
    } else {
        128 * pow128((k - 1) as nat)
    }
}

pub proof fn lemma_varint_bytes(v: nat)
    ensures
        1 <= varint_bytes(v).len(),
        v < 0x100000000000000 ==> varint_bytes(v).len() <= 8,
        varint_len(varint_bytes(v)) == varint_bytes(v).len(),
        varint_value(varint_bytes(v)) == v,
    decreases v,
{
    let s = varint_bytes(v);
    if v < 0x100000000000000 {
        reveal_with_fuel(pow128, 9);
        assert(pow128(8) == 0x100000000000000);
        lemma_small_len_rec(v, 8);
    }
    if v >= 128 {
        let t = varint_bytes(v / 128);
        lemma_varint_bytes(v / 128);
        assert(s.drop_first() =~= t);
        assert(s[0] == (v % 128 + 128) as u8);
        assert(s[0] >= 128);
        assert(s[0] % 128 == v % 128);
        assert(varint_len(s) == varint_len(t) + 1);
        assert(varint_value(s) == v % 128 + 128 * varint_value(t));
    } else {
        assert(s[0] == v as u8);
        assert(s.drop_first().len() == 0);
        assert(varint_value(s.drop_first()) == 0);
    }
}

pub proof fn lemma_varint_len_bound(s: Seq<u8>)
    ensures
        varint_len(s) <= s.len(),
    decreases s.len(),
{
    if s.len() > 0 {
        lemma_varint_len_bound(s.drop_first());
    }
}

/// The varint at the start of `s` reads the same whatever follows it.
pub proof fn lemma_varint_prefix(a: Seq<u8>, b: Seq<u8>)
    requires
        varint_len(a) == a.len(),
        a.len() > 0,
    ensures
        varint_len(a + b) == a.len(),
        (a + b).take(a.len() as int) == a,
    decreases a.len(),
{
    assert((a + b).take(a.len() as int) =~= a);
    if a.len() > 0 {
        assert((a + b)[0] == a[0]);
        if a[0] >= 128 {
            lemma_varint_prefix(a.drop_first(), b);
            assert((a + b).drop_first() =~= a.drop_first() + b);
        }
    }
}

} // verus!
