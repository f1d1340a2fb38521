//! Two hand-managed containers with verified contracts: a growable array
//! whose capacity doubles, and a circular doubly-linked list kept in an
//! arena of index-linked nodes.

use vstd::prelude::*;

pub mod circular;
pub mod vector;

verus! {

/// Both containers state `insert` and `remove` over the same sequence
/// operations, so an insert at `pos` followed by a remove at `pos` hands back
/// the inserted value and leaves the values, their number and their order as
/// they were.
pub proof fn lemma_insert_remove_round_trip<T>(s: Seq<T>, pos: int, v: T)
    requires
        0 <= pos <= s.len(),
    ensures
        s.insert(pos, v)[pos] == v,
        s.insert(pos, v).remove(pos) == s,
        s.insert(pos, v).remove(pos).len() == s.len(),
{
    assert(s.insert(pos, v).remove(pos) =~= s);
}

} // verus!
