//! Transactions carried by blocks.  Only deduplication matters to the
//! consensus core, so a transaction is its payload bytes.

use vstd::prelude::*;

verus! {

#[derive(Clone, Debug)]
pub struct Tx {
    pub payload: Vec<u8>,
}

impl View for Tx {
    type V = Seq<u8>;

    open spec fn view(&self) -> Seq<u8> {
        self.payload@
    }
}

impl Tx {
    pub fn new(payload: Vec<u8>) -> (r: Tx)
        ensures
            r@ == payload@,
    {
        Tx { payload }
    }

    /// Byte-for-byte equality of two transactions.
    pub fn same_as(&self, other: &Tx) -> (r: bool)
        ensures
            r == (self@ == other@),
    {
        bytes_eq(&self.payload, &other.payload)
    }
}

/// Byte-for-byte equality of two byte vectors.
pub fn bytes_eq(a: &Vec<u8>, b: &Vec<u8>) -> (r: bool)
    ensures
        r == (a@ == b@),
{
    if a.len() != b.len() {
        proof {
            assert(a@ != b@);
        }
        return false;
    }
    let mut i: usize = 0;
    while i < a.len()
        invariant
            i <= a@.len(),
            a@.len() == b@.len(),
            forall|j: int| 0 <= j < i ==> a@[j] == b@[j],
        decreases a@.len() - i,
    {
        if a[i] != b[i] {
            proof {
                assert(a@ != b@);
            }
            return false;
        }
        i = i + 1;
    }
    proof {
        assert(a@ =~= b@);
    }
    true
}

/// A copy of a byte vector.
pub fn clone_bytes(b: &Vec<u8>) -> (r: Vec<u8>)
    ensures
        r@ == b@,
{
    let mut out: Vec<u8> = Vec::new();
    let mut i: usize = 0;
    while i < b.len()
        invariant
            i <= b@.len(),
            out@ == b@.take(i as int),
        decreases b@.len() - i,
    {
        out.push(b[i]);
        i = i + 1;
        proof {
            assert(b@.take(i as int) =~= b@.take(i as int - 1).push(b@[i as int - 1]));
        }
    }
    proof {
        assert(b@.take(b@.len() as int) =~= b@);
    }
    out
}

/// A deep copy of a transaction list.
pub fn clone_txs(ts: &Vec<Tx>) -> (r: Vec<Tx>)
    ensures
        txs_view(r@) == txs_view(ts@),
{
    let mut out: Vec<Tx> = Vec::new();
    let mut i: usize = 0;
    while i < ts.len()
        invariant
            i <= ts@.len(),
            out@.len() == i,
            forall|j: int| 0 <= j < i ==> out@[j]@ == ts@[j]@,
        decreases ts@.len() - i,
    {
        out.push(Tx { payload: clone_bytes(&ts[i].payload) });
        i = i + 1;
    }
    proof {
        assert(txs_view(out@) =~= txs_view(ts@));
    }
    out
}

/// The views of a sequence of transactions.
pub open spec fn txs_view(txs: Seq<Tx>) -> Seq<Seq<u8>> {
    txs.map(|i: int, t: Tx| t@)
}

/// Element-wise equality of two transaction lists.
pub fn txs_eq(a: &Vec<Tx>, b: &Vec<Tx>) -> (r: bool)
    ensures
        r == (txs_view(a@) == txs_view(b@)),
{
    if a.len() != b.len() {
        proof {
            assert(txs_view(a@).len() != txs_view(b@).len());
        }
        return false;
    }
    let mut i: usize = 0;
    while i < a.len()
        invariant
            i <= a@.len(),
            a@.len() == b@.len(),
            forall|j: int| 0 <= j < i ==> a@[j]@ == b@[j]@,
        decreases a@.len() - i,
    {
        if !a[i].same_as(&b[i]) {
            proof {
                assert(txs_view(a@)[i as int] != txs_view(b@)[i as int]);
            }
            return false;
        }
        i = i + 1;
    }
    proof {
        assert(txs_view(a@) =~= txs_view(b@));
    }
    true
}

/// Whether `t` occurs in the viewed transaction list `ts`.
pub open spec fn tx_in(ts: Seq<Seq<u8>>, t: Seq<u8>) -> bool {
    exists|i: int| 0 <= i < ts.len() && ts[i] == t
}

/// Scans a transaction list for a payload equal to `t`.
pub fn contains_tx(ts: &Vec<Tx>, t: &Tx) -> (r: bool)
    ensures
        r == tx_in(txs_view(ts@), t@),
{
    let mut i: usize = 0;
    while i < ts.len()
        invariant
            i <= ts@.len(),
            forall|j: int| 0 <= j < i ==> ts@[j]@ != t@,
        decreases ts@.len() - i,
    {
        if ts[i].same_as(t) {
            proof {
                assert(txs_view(ts@)[i as int] == t@);
            }
            return true;
        }
        i = i + 1;
    }
    proof {
        assert(forall|j: int| 0 <= j < txs_view(ts@).len() ==> txs_view(ts@)[j] != t@);
    }
    false
}

} // verus!
