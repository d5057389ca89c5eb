//! The dependency graph: which packets hash into which.
use vstd::prelude::*;

verus! {

/// Relative offsets of the predecessors of an identifier with residue `r` mod 5.
pub open spec fn pred_offsets(r: int) -> Seq<i64> {
    if r == 0 {
        seq![-15i64, -5i64, -4i64, -1i64, 1i64]
    } else if r == 1 {
        seq![1i64, 3i64]
    } else if r == 2 {
        seq![1i64]
    } else if r == 3 {
        Seq::<i64>::empty()
    } else {
        seq![-2i64, -1i64]
    }
}

/// Relative offsets of the successors of an identifier with residue `r` mod 5.
pub open spec fn succ_offsets(r: int) -> Seq<i64> {
    if r == 0 {
        seq![5i64, 15i64]
    } else if r == 1 {
        seq![-1i64, 4i64]
    } else if r == 2 {
        seq![-1i64, 2i64]
    } else if r == 3 {
        seq![-1i64, 1i64]
    } else {
        seq![-3i64, 1i64]
    }
}

pub open spec fn is_id(x: int) -> bool {
    0 <= x <= u64::MAX
}

/// `id` moved by each offset in turn, dropping the results that are no identifier.
pub open spec fn shifted(id: int, offs: Seq<i64>) -> Seq<u64>
    decreases offs.len(),
{
    if offs.len() == 0 {
        Seq::<u64>::empty()
    } else {
        let rest = shifted(id, offs.drop_last());
        let x = id + offs.last();
        if is_id(x) {
            rest.push(x as u64)
        } else {
            rest
        }
    }
}

/// The packets whose hashes the packet `id` carries, in order.
pub open spec fn predecessors(id: u64) -> Seq<u64> {
    shifted(id as int, pred_offsets((id % 5) as int))
}

/// The packets that carry the hash of packet `id`, in order.
pub open spec fn successors(id: u64) -> Seq<u64> {
    shifted(id as int, succ_offsets((id % 5) as int))
}

pub proof fn lemma_shifted_contains(id: int, offs: Seq<i64>, x: u64)
    ensures
        shifted(id, offs).contains(x) <==> exists|k: int|
            0 <= k < offs.len() && id + offs[k] == x,
    decreases offs.len(),
{
    if offs.len() > 0 {
        let init = offs.drop_last();
        lemma_shifted_contains(id, init, x);
        let rest = shifted(id, init);
        let v = id + offs.last();
        if shifted(id, offs).contains(x) {
            let n = choose|n: int| 0 <= n < shifted(id, offs).len() && shifted(id, offs)[n] == x;
            if n < rest.len() {
                assert(rest[n] == x);
                assert(rest.contains(x));
                let k = choose|k: int| 0 <= k < init.len() && id + init[k] == x;
                assert(offs[k] == init[k]);
            } else {
                assert(id + offs[offs.len() - 1] == x);
            }
        }
        if exists|k: int| 0 <= k < offs.len() && id + offs[k] == x {
            let k = choose|k: int| 0 <= k < offs.len() && id + offs[k] == x;
            if k < offs.len() - 1 {
                assert(init[k] == offs[k]);
                assert(rest.contains(x));
                let n = choose|n: int| 0 <= n < rest.len() && rest[n] == x;
                assert(shifted(id, offs)[n] == x);
            } else {
                assert(is_id(v));
                assert(shifted(id, offs)[rest.len() as int] == x);
            }
        }
    }
}

pub proof fn lemma_shifted_len(id: int, offs: Seq<i64>)
    ensures
        shifted(id, offs).len() <= offs.len(),
    decreases offs.len(),
{
    if offs.len() > 0 {
        lemma_shifted_len(id, offs.drop_last());
    }
}

/// Every identifier has at most five predecessors and at most two successors.
pub proof fn lemma_degree(id: u64)
    ensures
        predecessors(id).len() <= 5,
        successors(id).len() <= 2,
{
    lemma_shifted_len(id as int, pred_offsets((id % 5) as int));
    lemma_shifted_len(id as int, succ_offsets((id % 5) as int));
}

/// Predecessors and successors are inverse relations: `j` carries the hash of `i`
/// exactly when `i` is among the predecessors of `j`.
pub proof fn lemma_graph_inverse(i: u64, j: u64)
    ensures
        successors(i).contains(j) <==> predecessors(j).contains(i),
{
    let so = succ_offsets((i % 5) as int);
    let po = pred_offsets((j % 5) as int);
    lemma_shifted_contains(i as int, so, j);
    lemma_shifted_contains(j as int, po, i);
    let d = j - i;
    if successors(i).contains(j) {
        let k = choose|k: int| 0 <= k < so.len() && i + so[k] == j;
        assert(po.contains((-d) as i64)) by {
            if i % 5 == 0 {
                assert(j % 5 == 0);
            } else if i % 5 == 1 {
                assert(d == -1 ==> j % 5 == 0);
                assert(d == 4 ==> j % 5 == 0);
            } else if i % 5 == 2 {
                assert(d == -1 ==> j % 5 == 1);
                assert(d == 2 ==> j % 5 == 4);
            } else if i % 5 == 3 {
                assert(d == -1 ==> j % 5 == 2);
                assert(d == 1 ==> j % 5 == 4);
            } else {
                assert(d == -3 ==> j % 5 == 1);
                assert(d == 1 ==> j % 5 == 0);
            }
        }
        let m = choose|m: int| 0 <= m < po.len() && po[m] == (-d) as i64;
        assert(j + po[m] == i);
    }
    if predecessors(j).contains(i) {
        let k = choose|k: int| 0 <= k < po.len() && j + po[k] == i;
        assert(so.contains(d as i64)) by {
            if j % 5 == 0 {
                assert(d == 15 ==> i % 5 == 0);
                assert(d == 5 ==> i % 5 == 0);
                assert(d == 4 ==> i % 5 == 1);
                assert(d == 1 ==> i % 5 == 4);
                assert(d == -1 ==> i % 5 == 1);
            } else if j % 5 == 1 {
                assert(d == -1 ==> i % 5 == 2);
                assert(d == -3 ==> i % 5 == 4);
            } else if j % 5 == 2 {
                assert(d == -1 ==> i % 5 == 3);
            } else if j % 5 == 4 {
                assert(d == 2 ==> i % 5 == 2);
                assert(d == 1 ==> i % 5 == 3);
            }
        }
        let m = choose|m: int| 0 <= m < so.len() && so[m] == d as i64;
        assert(i + so[m] == j);
    }
}

/// A packet is never its own successor, and its successors are distinct.
pub proof fn lemma_successors_distinct(id: u64)
    ensures
        !successors(id).contains(id),
        forall|a: int, b: int| 0 <= a < b < successors(id).len()
            ==> successors(id)[a] < successors(id)[b],
{
    let offs = succ_offsets((id % 5) as int);
    lemma_shifted_contains(id as int, offs, id);
    reveal_with_fuel(shifted, 3);
    let s0 = shifted(id as int, offs.take(1));
    assert(offs.take(1).drop_last() =~= Seq::<i64>::empty());
    assert(offs.drop_last() =~= offs.take(1));
    assert(offs[0] < offs[1]);
    assert(s0.len() <= 1);
    assert(s0.len() == 1 ==> s0[0] == id + offs[0]);
}

fn pred_offsets_exec(r: u64) -> (v: Vec<i64>)
    requires
        r < 5,
    ensures
        v@ == pred_offsets(r as int),
{
    let v = if r == 0 {
        vec![-15i64, -5, -4, -1, 1]
    } else if r == 1 {
        vec![1i64, 3]
    } else if r == 2 {
        vec![1i64]
    } else if r == 3 {
        Vec::new()
    } else {
        vec![-2i64, -1]
    };
    assert(v@ =~= pred_offsets(r as int));
    v
}

fn succ_offsets_exec(r: u64) -> (v: Vec<i64>)
    requires
        r < 5,
    ensures
        v@ == succ_offsets(r as int),
{
    let v = if r == 0 {
        vec![5i64, 15]
    } else if r == 1 {
        vec![-1i64, 4]
    } else if r == 2 {
        vec![-1i64, 2]
    } else if r == 3 {
        vec![-1i64, 1]
    } else {
        vec![-3i64, 1]
    };
    assert(v@ =~= succ_offsets(r as int));
    v
}

fn shift_all(id: u64, offs: &Vec<i64>) -> (r: Vec<u64>)
    ensures
        r@ == shifted(id as int, offs@),
{
    let mut out: Vec<u64> = Vec::new();
    let mut i: usize = 0;
    while i < offs.len()
        invariant
            0 <= i <= offs.len(),
            out@ == shifted(id as int, offs@.take(i as int)),
        decreases offs.len() - i,
    {
        let o = offs[i];
        assert(offs@.take(i as int + 1).drop_last() =~= offs@.take(i as int));
        assert(offs@.take(i as int + 1).last() == o);
        if o < 0 {
            let d: u64 = (0i128 - o as i128) as u64;
            if d <= id {
                out.push(id - d);
            }
        } else {
            let d: u64 = o as u64;
            if d <= u64::MAX - id {
                out.push(id + d);
            }
        }
        i += 1;
    }
    assert(offs@.take(offs.len() as int) =~= offs@);
    out
}

/// The identifiers of the predecessors of `id`.
pub fn predecessor_ids(id: u64) -> (r: Vec<u64>)
    ensures
        r@ == predecessors(id),
{
    let offs = pred_offsets_exec(id % 5);
    shift_all(id, &offs)
}

/// The identifiers of the successors of `id`.
pub fn successor_ids(id: u64) -> (r: Vec<u64>)
    ensures
        r@ == successors(id),
{
    let offs = succ_offsets_exec(id % 5);
    shift_all(id, &offs)
}

} // verus!
