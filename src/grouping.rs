use std::collections::HashMap;
use vstd::prelude::*;

use crate::model::Skill;

verus! {

broadcast use vstd::std_specs::hash::group_hash_axioms;

/// The rows of `rows` that belong to coder `k`, in the order the store returned them.
pub open spec fn children_of(rows: Seq<Skill>, k: u128) -> Seq<Skill>
    decreases rows.len(),
{
    if rows.len() == 0 {
        Seq::empty()
    } else {
        let before = children_of(rows.drop_last(), k);
        if rows.last().coder_id == k {
            before.push(rows.last())
        } else {
            before
        }
    }
}

/// Some row of `rows` belongs to coder `k`.
pub open spec fn has_child(rows: Seq<Skill>, k: u128) -> bool {
    exists|i: int| 0 <= i < rows.len() && #[trigger] rows[i].coder_id == k
}

/// The keys of a result map: every requested key, and every key that a row carries.
pub open spec fn result_keys(keys: Seq<u128>, rows: Seq<Skill>) -> Set<u128> {
    keys.to_set().union(Set::new(|k: u128| has_child(rows, k)))
}

/// Relies on itertools::Itertools::into_group_map: one entry for each key that
/// occurs among the pairs, holding that key's values in the order they came.
#[verifier::external_body]
fn group_map_by_coder(rows: Vec<Skill>) -> (r: HashMap<u128, Vec<Skill>>)
    ensures
        forall|k: u128| #[trigger] r@.contains_key(k) <==> has_child(rows@, k),
        forall|k: u128| #[trigger] r@.contains_key(k) ==> r@[k]@ == children_of(rows@, k),
{
    itertools::Itertools::into_group_map(rows.into_iter().map(|s| (s.coder_id, s)))
}

/// Partitions the rows of one grouped fetch by coder.
///
/// Every requested key gets an entry, empty where no row carries it; each
/// entry keeps the store's order.
pub fn group_by_coder(keys: &Vec<u128>, rows: Vec<Skill>) -> (r: HashMap<u128, Vec<Skill>>)
    ensures
        r@.dom() == result_keys(keys@, rows@),
        forall|k: u128| #[trigger] r@.contains_key(k) ==> r@[k]@ == children_of(rows@, k),
{
    let ghost rs = rows@;
    let mut map = group_map_by_coder(rows);
    let mut i: usize = 0;
    while i < keys.len()
        invariant
            0 <= i <= keys.len(),
            map@.dom() == keys@.take(i as int).to_set().union(Set::new(|k: u128| has_child(rs, k))),
            forall|k: u128| #[trigger] map@.contains_key(k) ==> map@[k]@ == children_of(rs, k),
        decreases keys.len() - i,
    {
        let k = keys[i];
        if !map.contains_key(&k) {
            proof {
                lemma_no_child_empty(rs, k);
            }
            map.insert(k, Vec::new());
        }
        proof {
            assert(keys@.take(i + 1) == keys@.take(i as int).push(k));
            keys@.take(i as int).lemma_push_to_set_commute(k);
        }
        i += 1;
        assert(map@.dom() =~= keys@.take(i as int).to_set().union(Set::new(|k: u128| has_child(rs, k))));
    }
    assert(keys@.take(keys.len() as int) == keys@);
    map
}

/// A key that no row carries has no children.
pub proof fn lemma_no_child_empty(rows: Seq<Skill>, k: u128)
    requires
        !has_child(rows, k),
    ensures
        children_of(rows, k) == Seq::<Skill>::empty(),
    decreases rows.len(),
{
    if rows.len() > 0 {
        assert forall|i: int| 0 <= i < rows.drop_last().len() implies rows.drop_last()[i].coder_id != k by {
            assert(rows[i] == rows.drop_last()[i]);
        }
        lemma_no_child_empty(rows.drop_last(), k);
        assert(rows[rows.len() - 1].coder_id != k);
    }
}

/// A requested key's entry is empty if and only if no returned row carries it.
pub proof fn lemma_empty_iff_no_row(rows: Seq<Skill>, k: u128)
    ensures
        children_of(rows, k).len() == 0 <==> !has_child(rows, k),
    decreases rows.len(),
{
    if has_child(rows, k) {
        let i = choose|i: int| 0 <= i < rows.len() && #[trigger] rows[i].coder_id == k;
        lemma_child_at_rank(rows, k, i);
    } else {
        lemma_no_child_empty(rows, k);
    }
}

/// The children of a prefix of the rows are a prefix of the children.
pub proof fn lemma_children_prefix(rows: Seq<Skill>, k: u128, n: int)
    requires
        0 <= n <= rows.len(),
    ensures
        children_of(rows.take(n), k).len() <= children_of(rows, k).len(),
        children_of(rows, k).take(children_of(rows.take(n), k).len() as int) == children_of(rows.take(n), k),
    decreases rows.len(),
{
    if n == rows.len() {
        assert(rows.take(n) == rows);
    } else {
        assert(rows.take(n) == rows.drop_last().take(n));
        lemma_children_prefix(rows.drop_last(), k, n);
    }
}

/// A row of coder `k` at position `i` stands in the children of `k` at the
/// position given by the number of such rows before it.
pub proof fn lemma_child_at_rank(rows: Seq<Skill>, k: u128, i: int)
    requires
        0 <= i < rows.len(),
        rows[i].coder_id == k,
    ensures
        children_of(rows.take(i), k).len() < children_of(rows, k).len(),
        children_of(rows, k)[children_of(rows.take(i), k).len() as int] == rows[i],
        children_of(rows.take(i + 1), k).len() == children_of(rows.take(i), k).len() + 1,
{
    assert(rows.take(i + 1).drop_last() == rows.take(i));
    lemma_children_prefix(rows, k, i + 1);
    let a = children_of(rows.take(i), k).len() as int;
    assert(children_of(rows, k).take(a + 1)[a] == rows[i]);
}

/// Children that share a coder keep the relative order in which the store
/// returned them: a row that came earlier stands earlier among the children.
pub proof fn lemma_children_keep_store_order(rows: Seq<Skill>, k: u128, i: int, j: int)
    requires
        0 <= i < j < rows.len(),
        rows[i].coder_id == k,
        rows[j].coder_id == k,
    ensures
        ({
            let a = children_of(rows.take(i), k).len() as int;
            let b = children_of(rows.take(j), k).len() as int;
            &&& a < b < children_of(rows, k).len()
            &&& children_of(rows, k)[a] == rows[i]
            &&& children_of(rows, k)[b] == rows[j]
        }),
{
    lemma_child_at_rank(rows, k, i);
    lemma_child_at_rank(rows, k, j);
    assert(rows.take(j).take(i + 1) == rows.take(i + 1));
    lemma_children_prefix(rows.take(j), k, i + 1);
}

} // verus!
