//! Association lists keyed by identifiers: lookup of the first entry with a
//! given key.

use vstd::prelude::*;

verus! {

/// The position of the first key at or after `i` equal to `k`.
pub open spec fn first_index_from(ks: Seq<Seq<char>>, k: Seq<char>, i: int) -> Option<int>
    decreases ks.len() - i,
{
    if i < 0 || i >= ks.len() {
        None
    } else if ks[i] == k {
        Some(i)
    } else {
        first_index_from(ks, k, i + 1)
    }
}

/// The position of the first key equal to `k`.
pub open spec fn first_index(ks: Seq<Seq<char>>, k: Seq<char>) -> Option<int> {
    first_index_from(ks, k, 0)
}

/// The keys of an association list.
pub open spec fn keys_of<V>(m: Seq<(Seq<char>, V)>) -> Seq<Seq<char>> {
    m.map_values(|e: (Seq<char>, V)| e.0)
}

/// The keys of an association list held in a vector.
pub open spec fn entry_keys<V>(v: Seq<(String, V)>) -> Seq<Seq<char>> {
    v.map_values(|e: (String, V)| e.0@)
}

pub proof fn lemma_first_index_from_skip(ks: Seq<Seq<char>>, k: Seq<char>, i: int)
    requires
        0 <= i <= ks.len(),
        forall|t: int| 0 <= t < i ==> ks[t] != k,
    ensures
        first_index(ks, k) == first_index_from(ks, k, i),
    decreases i,
{
    if i > 0 {
        lemma_first_index_from_skip(ks, k, i - 1);
    }
}

pub proof fn lemma_first_index_from(ks: Seq<Seq<char>>, k: Seq<char>, i: int)
    requires
        0 <= i,
    ensures
        first_index_from(ks, k, i) matches Some(p) ==> i <= p < ks.len() && ks[p] == k && forall|
            t: int,
        |
            i <= t < p ==> ks[t] != k,
        first_index_from(ks, k, i) is None ==> forall|t: int| i <= t < ks.len() ==> ks[t] != k,
    decreases ks.len() - i,
{
    if i < ks.len() && ks[i] != k {
        lemma_first_index_from(ks, k, i + 1);
    }
}

/// What `first_index` says, in one statement.
pub proof fn lemma_first_index(ks: Seq<Seq<char>>, k: Seq<char>)
    ensures
        first_index(ks, k) matches Some(p) ==> 0 <= p < ks.len() && ks[p] == k && forall|t: int|
            0 <= t < p ==> ks[t] != k,
        first_index(ks, k) is None <==> !ks.contains(k),
{
    lemma_first_index_from(ks, k, 0);
    if first_index(ks, k) is None {
        assert forall|t: int| 0 <= t < ks.len() implies ks[t] != k by {}
    } else {
        let p = first_index(ks, k)->0;
        assert(ks[p] == k);
    }
}

/// The position of the first entry whose key is `k`.
pub fn position_of<V>(entries: &Vec<(String, V)>, k: &String) -> (r: Option<usize>)
    ensures
        r matches Some(p) ==> first_index(entry_keys(entries@), k@) == Some(p as int),
        r is None ==> first_index(entry_keys(entries@), k@) is None,
{
    let ghost ks = entry_keys(entries@);
    let mut i: usize = 0;
    while i < entries.len()
        invariant
            i <= entries@.len(),
            ks == entry_keys(entries@),
            forall|t: int| 0 <= t < i ==> ks[t] != k@,
        decreases entries@.len() - i,
    {
        if entries[i].0 == *k {
            proof {
                lemma_first_index_from_skip(ks, k@, i as int);
            }
            return Some(i);
        }
        i = i + 1;
    }
    proof {
        lemma_first_index_from_skip(ks, k@, i as int);
    }
    None
}

} // verus!
