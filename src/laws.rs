//! Laws of head insertion, stated over the sequence model that
//! `Tweak::insert_from_head` is specified by.
use vstd::prelude::*;

use crate::ring::inserted;

verus! {

/// The sequence `s` (newest first) after each value of `vs` is inserted in
/// turn, first to last, into a ring of capacity `cap`.
pub open spec fn inserted_all<T>(s: Seq<T>, cap: nat, vs: Seq<T>) -> Seq<T>
    decreases vs.len(),
{
    if vs.len() == 0 {
        s
    } else {
        inserted(inserted_all(s, cap, vs.drop_last()), cap, vs.last())
    }
}

/// The smaller of two naturals.
pub open spec fn min_nat(a: nat, b: nat) -> nat {
    if a < b {
        a
    } else {
        b
    }
}

/// Whatever values are inserted, a ring never holds more than its capacity,
/// and it holds exactly the smaller of its capacity and the number of
/// elements it held plus the number inserted since.
pub proof fn lemma_len_bound<T>(s: Seq<T>, cap: nat, vs: Seq<T>)
    requires
        1 <= cap,
        s.len() <= cap,
    ensures
        inserted_all(s, cap, vs).len() <= cap,
        inserted_all(s, cap, vs).len() == min_nat(cap, s.len() + vs.len()),
    decreases vs.len(),
{
    if vs.len() > 0 {
        lemma_len_bound(s, cap, vs.drop_last());
    }
}

/// Inserting into a full ring keeps its size, puts the new value at the
/// head and shifts every survivor one position away from the head: exactly
/// the oldest element, at position `cap - 1`, is evicted.
pub proof fn lemma_full_insert_evicts_oldest<T>(s: Seq<T>, cap: nat, v: T)
    requires
        1 <= cap,
        s.len() == cap,
    ensures
        inserted(s, cap, v).len() == cap,
        inserted(s, cap, v)[0] == v,
        forall|i: int| 1 <= i < cap ==> #[trigger] inserted(s, cap, v)[i] == s[i - 1],
        inserted(s, cap, v) == seq![v] + s.subrange(0, cap - 1),
{
    assert(inserted(s, cap, v) =~= seq![v] + s.subrange(0, cap - 1));
}

} // verus!
