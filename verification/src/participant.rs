//! Consensus participants: identifier, public key, the epoch they joined
//! and the last epoch they voted in.  The active set is kept as a vector
//! sorted strictly by identifier, so that every node walks it in the same
//! order when electing a leader.

use vstd::prelude::*;
use crate::crypto::PublicKey;

verus! {

#[derive(Clone, Copy, Debug)]
pub struct Participant {
    pub id: u64,
    pub public_key: PublicKey,
    pub joined: u64,
    pub voted: Option<u64>,
}

impl Participant {
    pub fn new(id: u64, public_key: PublicKey, joined: u64) -> (r: Participant)
        ensures
            r == (Participant { id, public_key, joined, voted: None }),
    {
        Participant { id, public_key, joined, voted: None }
    }

    /// Field-wise equality of two participants.
    pub fn same_as(&self, other: &Participant) -> (r: bool)
        ensures
            r == (*self == *other),
    {
        self.id == other.id && self.public_key.key == other.public_key.key && self.joined
            == other.joined && match (self.voted, other.voted) {
            (None, None) => true,
            (Some(a), Some(b)) => a == b,
            _ => false,
        }
    }
}

/// Identifiers strictly increase along the sequence.
pub open spec fn sorted_by_id(ps: Seq<Participant>) -> bool {
    forall|i: int, j: int| 0 <= i < j < ps.len() ==> ps[i].id < ps[j].id
}

/// Index of the first participant whose id is not below `id`.
pub open spec fn spec_lb(ps: Seq<Participant>, id: u64) -> int
    decreases ps.len(),
{
    if ps.len() == 0 {
        0
    } else if ps[0].id >= id {
        0
    } else {
        1 + spec_lb(ps.skip(1), id)
    }
}

/// `spec_lb` is the unique boundary between smaller and not-smaller ids.
pub proof fn lemma_lb_char(ps: Seq<Participant>, id: u64, i: int)
    requires
        0 <= i <= ps.len(),
        forall|j: int| 0 <= j < i ==> ps[j].id < id,
        i < ps.len() ==> ps[i].id >= id,
    ensures
        spec_lb(ps, id) == i,
    decreases ps.len(),
{
    if ps.len() == 0 {
    } else if ps[0].id >= id {
        assert(i == 0);
    } else {
        assert(forall|j: int| 0 <= j < i - 1 ==> ps.skip(1)[j] == ps[j + 1]);
        lemma_lb_char(ps.skip(1), id, i - 1);
    }
}

/// Inserting `p` keeps the sequence sorted; an existing entry with the
/// same id is replaced.
pub open spec fn spec_insert_participant(ps: Seq<Participant>, p: Participant) -> Seq<Participant> {
    let i = spec_lb(ps, p.id);
    if i < ps.len() && ps[i].id == p.id {
        ps.update(i, p)
    } else {
        ps.subrange(0, i) + seq![p] + ps.subrange(i, ps.len() as int)
    }
}

/// Sorted insertion preserves sortedness.
pub proof fn lemma_insert_sorted(ps: Seq<Participant>, p: Participant, i: int)
    requires
        sorted_by_id(ps),
        i == spec_lb(ps, p.id),
        0 <= i <= ps.len(),
        forall|j: int| 0 <= j < i ==> ps[j].id < p.id,
        i < ps.len() ==> ps[i].id >= p.id,
    ensures
        sorted_by_id(spec_insert_participant(ps, p)),
{
    lemma_lb_char(ps, p.id, i);
    let r = spec_insert_participant(ps, p);
    if i < ps.len() && ps[i].id == p.id {
        assert forall|a: int, b: int| 0 <= a < b < r.len() implies r[a].id < r[b].id by {
            assert(ps[a].id < ps[b].id);
        }
    } else {
        assert forall|a: int, b: int| 0 <= a < b < r.len() implies r[a].id < r[b].id by {
            if a < i && b < i {
            } else if a < i && b == i {
            } else if a < i && b > i {
                assert(r[b] == ps[b - 1]);
            } else if a == i {
                if b > i {
                    assert(r[b] == ps[b - 1]);
                    assert(ps[b - 1].id >= p.id);
                    assert(ps[b - 1].id != p.id || b - 1 == i);
                    if b - 1 > i {
                        assert(ps[i].id < ps[b - 1].id);
                    }
                    assert(ps[b - 1].id > p.id || b - 1 == i);
                    if b - 1 == i {
                        assert(ps[i].id >= p.id && ps[i].id != p.id);
                    }
                }
            } else {
                assert(r[a] == ps[a - 1] && r[b] == ps[b - 1]);
                assert(ps[a - 1].id < ps[b - 1].id);
            }
        }
    }
}

/// Inserts `p` into the sorted vector `ps`, replacing any entry with the
/// same id.
pub fn insert_participant(ps: &mut Vec<Participant>, p: Participant)
    requires
        sorted_by_id(old(ps)@),
    ensures
        final(ps)@ == spec_insert_participant(old(ps)@, p),
        sorted_by_id(final(ps)@),
{
    let mut i: usize = 0;
    while i < ps.len() && ps[i].id < p.id
        invariant
            i <= ps@.len(),
            ps@ == old(ps)@,
            forall|j: int| 0 <= j < i ==> ps@[j].id < p.id,
        decreases ps@.len() - i,
    {
        i = i + 1;
    }
    proof {
        lemma_lb_char(ps@, p.id, i as int);
        lemma_insert_sorted(ps@, p, i as int);
    }
    if i < ps.len() && ps[i].id == p.id {
        ps.remove(i);
        ps.insert(i, p);
        proof {
            assert(ps@ =~= spec_insert_participant(old(ps)@, p));
        }
    } else {
        ps.insert(i, p);
        proof {
            assert(ps@ =~= spec_insert_participant(old(ps)@, p));
        }
    }
}

/// Folds `spec_insert_participant` over the first `n` pending entries.
pub open spec fn spec_admit(ps: Seq<Participant>, pending: Seq<Participant>, n: int) -> Seq<
    Participant,
>
    decreases n,
{
    if n <= 0 {
        ps
    } else {
        spec_insert_participant(spec_admit(ps, pending, n - 1), pending[n - 1])
    }
}

/// Admission preserves sortedness.
pub proof fn lemma_admit_sorted(ps: Seq<Participant>, pending: Seq<Participant>, n: int)
    requires
        sorted_by_id(ps),
        0 <= n <= pending.len(),
    ensures
        sorted_by_id(spec_admit(ps, pending, n)),
    decreases n,
{
    if n > 0 {
        lemma_admit_sorted(ps, pending, n - 1);
        let prev = spec_admit(ps, pending, n - 1);
        let p = pending[n - 1];
        lemma_lb_spec_bounds(prev, p.id);
        lemma_insert_sorted(prev, p, spec_lb(prev, p.id));
    }
}

/// `spec_lb` stays within bounds and marks the boundary.
pub proof fn lemma_lb_spec_bounds(ps: Seq<Participant>, id: u64)
    ensures
        0 <= spec_lb(ps, id) <= ps.len(),
        forall|j: int| 0 <= j < spec_lb(ps, id) ==> ps[j].id < id,
        spec_lb(ps, id) < ps.len() ==> ps[spec_lb(ps, id)].id >= id,
    decreases ps.len(),
{
    if ps.len() > 0 && ps[0].id < id {
        lemma_lb_spec_bounds(ps.skip(1), id);
        let l = spec_lb(ps, id);
        assert(l == 1 + spec_lb(ps.skip(1), id));
        assert forall|j: int| 0 <= j < l implies ps[j].id < id by {
            if j > 0 {
                assert(ps.skip(1)[j - 1] == ps[j]);
            }
        }
        if l < ps.len() {
            assert(ps.skip(1)[l - 1] == ps[l]);
        }
    }
}

/// Moves every entry of `pending` into the sorted set `ps`, in order.
pub fn admit_participants(ps: &mut Vec<Participant>, pending: &Vec<Participant>)
    requires
        sorted_by_id(old(ps)@),
    ensures
        final(ps)@ == spec_admit(old(ps)@, pending@, pending@.len() as int),
        sorted_by_id(final(ps)@),
{
    let mut j: usize = 0;
    while j < pending.len()
        invariant
            j <= pending@.len(),
            ps@ == spec_admit(old(ps)@, pending@, j as int),
            sorted_by_id(ps@),
        decreases pending@.len() - j,
    {
        insert_participant(ps, pending[j]);
        j = j + 1;
    }
}

/// The first participant with identifier `id`, if any.
pub open spec fn spec_find_participant(ps: Seq<Participant>, id: u64) -> Option<int>
    decreases ps.len(),
{
    if ps.len() == 0 {
        None
    } else if ps[0].id == id {
        Some(0int)
    } else {
        match spec_find_participant(ps.skip(1), id) {
            Some(i) => Some(i + 1),
            None => None,
        }
    }
}

/// Position of the participant with identifier `id`, if present.
pub fn find_participant_index(ps: &Vec<Participant>, id: u64) -> (r: Option<usize>)
    ensures
        match r {
            Some(i) => i < ps@.len() && ps@[i as int].id == id,
            None => forall|j: int| 0 <= j < ps@.len() ==> ps@[j].id != id,
        },
{
    let mut i: usize = 0;
    while i < ps.len()
        invariant
            i <= ps@.len(),
            forall|j: int| 0 <= j < i ==> ps@[j].id != id,
        decreases ps@.len() - i,
    {
        if ps[i].id == id {
            return Some(i);
        }
        i = i + 1;
    }
    None
}

} // verus!
