//! Grouping of result records by substation: each substation id gets the
//! positions of its records, in the order the records come.

use vstd::prelude::*;
use crate::assoc::{first_index, keys_of, entry_keys, lemma_first_index, position_of};

verus! {

/// The groups formed by the first `n` keys: one group per distinct key, in
/// the order keys first appear, each holding the positions with that key in
/// ascending order.
pub open spec fn groups_upto(ks: Seq<Seq<char>>, n: int) -> Seq<(Seq<char>, Seq<usize>)>
    decreases n,
{
    if n <= 0 {
        Seq::empty()
    } else {
        let g = groups_upto(ks, n - 1);
        match first_index(keys_of(g), ks[n - 1]) {
            Some(p) => g.update(p, (g[p].0, g[p].1.push((n - 1) as usize))),
            None => g.push((ks[n - 1], seq![(n - 1) as usize])),
        }
    }
}

pub open spec fn groups_view(v: Seq<(String, Vec<usize>)>) -> Seq<(Seq<char>, Seq<usize>)> {
    v.map_values(|e: (String, Vec<usize>)| (e.0@, e.1@))
}

/// Groups positions `0..keys.len()` by their key.
pub fn group_by_key(keys: &Vec<String>) -> (r: Vec<(String, Vec<usize>)>)
    ensures
        groups_view(r@) == groups_upto(keys@.map_values(|s: String| s@), keys@.len() as int),
{
    let ghost ks = keys@.map_values(|s: String| s@);
    let mut out: Vec<(String, Vec<usize>)> = Vec::new();
    let mut i: usize = 0;
    while i < keys.len()
        invariant
            i <= keys@.len(),
            ks == keys@.map_values(|s: String| s@),
            groups_view(out@) == groups_upto(ks, i as int),
        decreases keys@.len() - i,
    {
        let ghost g = groups_view(out@);
        proof {
            assert(entry_keys(out@) =~= keys_of(g));
        }
        match position_of(&out, &keys[i]) {
            Some(p) => {
                proof {
                    lemma_first_index(keys_of(g), ks[i as int]);
                }
                let mut idx: Vec<usize> = Vec::new();
                let mut name = String::new();
                std::mem::swap(&mut idx, &mut out[p].1);
                std::mem::swap(&mut name, &mut out[p].0);
                idx.push(i);
                out.set(p, (name, idx));
                proof {
                    assert(groups_view(out@) =~= groups_upto(ks, i + 1));
                }
            },
            None => {
                let mut idx: Vec<usize> = Vec::new();
                idx.push(i);
                out.push((keys[i].clone(), idx));
                proof {
                    assert(groups_view(out@) =~= groups_upto(ks, i + 1));
                }
            },
        }
        i = i + 1;
    }
    out
}

} // verus!

verus! {

/// Position `i` is listed in one of the groups.
pub open spec fn listed(g: Seq<(Seq<char>, Seq<usize>)>, i: usize) -> bool {
    exists|a: int, j: int| 0 <= a < g.len() && 0 <= j < g[a].1.len() && #[trigger] g[a].1[j] == i
}

/// The groups partition the positions: keys are distinct, no group is
/// empty, each group lists positions holding its key in ascending order, and
/// every position is listed in some group.
pub proof fn lemma_groups_partition(ks: Seq<Seq<char>>, n: int)
    requires
        0 <= n <= ks.len(),
        n <= usize::MAX,
    ensures
        ({
            let g = groups_upto(ks, n);
            &&& forall|a: int, b: int| 0 <= a < b < g.len() ==> #[trigger] g[a].0 != #[trigger] g[b].0
            &&& forall|a: int| 0 <= a < g.len() ==> #[trigger] g[a].1.len() > 0
            &&& forall|a: int, j: int|
                0 <= a < g.len() && 0 <= j < g[a].1.len() ==> #[trigger] g[a].1[j] < n && ks[g[a].1[j] as int]
                    == g[a].0
            &&& forall|a: int, j: int, l: int|
                0 <= a < g.len() && 0 <= j < l < g[a].1.len() ==> #[trigger] g[a].1[j] < #[trigger] g[a].1[l]
            &&& forall|i: usize| i < n ==> #[trigger] listed(g, i)
        }),
    decreases n,
{
    if n > 0 {
        lemma_groups_partition(ks, n - 1);
        let g = groups_upto(ks, n - 1);
        let k = ks[n - 1];
        let last = (n - 1) as usize;
        lemma_first_index(keys_of(g), k);
        let h = groups_upto(ks, n);
        match first_index(keys_of(g), k) {
            Some(p) => {
                assert(h == g.update(p, (g[p].0, g[p].1.push(last))));
                assert forall|a: int, b: int| 0 <= a < b < h.len() implies #[trigger] h[a].0
                    != #[trigger] h[b].0 by {
                    assert(h[a].0 == g[a].0 && h[b].0 == g[b].0);
                }
                assert forall|a: int, j: int|
                    0 <= a < h.len() && 0 <= j < h[a].1.len() implies #[trigger] h[a].1[j] < n
                    && ks[h[a].1[j] as int] == h[a].0 by {
                    if a == p && j == g[p].1.len() {
                        assert(keys_of(g)[p] == g[p].0);
                    } else {
                        assert(h[a].1[j] == g[a].1[j]);
                    }
                }
                assert forall|a: int, j: int, l: int|
                    0 <= a < h.len() && 0 <= j < l < h[a].1.len() implies #[trigger] h[a].1[j]
                    < #[trigger] h[a].1[l] by {
                    if a == p && l == g[p].1.len() {
                        assert(h[a].1[j] == g[a].1[j]);
                    } else {
                        assert(h[a].1[j] == g[a].1[j]);
                        assert(h[a].1[l] == g[a].1[l]);
                    }
                }
                assert forall|i: usize| i < n implies #[trigger] listed(h, i) by {
                    if i == n - 1 {
                        assert(h[p].1[g[p].1.len() as int] == last);
                    } else {
                        assert(listed(g, i));
                        let (a, j) = choose|a: int, j: int|
                            0 <= a < g.len() && 0 <= j < g[a].1.len() && #[trigger] g[a].1[j] == i;
                        assert(h[a].1[j] == g[a].1[j]);
                    }
                }
            },
            None => {
                assert(h == g.push((k, seq![last])));
                assert forall|a: int, b: int| 0 <= a < b < h.len() implies #[trigger] h[a].0
                    != #[trigger] h[b].0 by {
                    if b == g.len() {
                        assert(keys_of(g)[a] == g[a].0);
                    }
                }
                assert forall|a: int, j: int|
                    0 <= a < h.len() && 0 <= j < h[a].1.len() implies #[trigger] h[a].1[j] < n
                    && ks[h[a].1[j] as int] == h[a].0 by {
                    if a < g.len() {
                        assert(h[a] == g[a]);
                    }
                }
                assert forall|a: int, j: int, l: int|
                    0 <= a < h.len() && 0 <= j < l < h[a].1.len() implies #[trigger] h[a].1[j]
                    < #[trigger] h[a].1[l] by {
                    assert(a < g.len());
                    assert(h[a] == g[a]);
                }
                assert forall|i: usize| i < n implies #[trigger] listed(h, i) by {
                    if i == n - 1 {
                        assert(h[g.len() as int].1[0] == last);
                    } else {
                        assert(listed(g, i));
                        let (a, j) = choose|a: int, j: int|
                            0 <= a < g.len() && 0 <= j < g[a].1.len() && #[trigger] g[a].1[j] == i;
                        assert(h[a] == g[a]);
                    }
                }
            },
        }
    }
}

} // verus!

verus! {

/// Groups come in the order their keys first appear: each group starts at
/// the first position holding its key, and earlier groups start earlier.
pub proof fn lemma_groups_first_seen(ks: Seq<Seq<char>>, n: int)
    requires
        0 <= n <= ks.len(),
        n <= usize::MAX,
    ensures
        ({
            let g = groups_upto(ks, n);
            &&& forall|a: int, b: int|
                0 <= a < b < g.len() ==> (#[trigger] g[a]).1[0] < (#[trigger] g[b]).1[0]
            &&& forall|a: int, i: int|
                0 <= a < g.len() && 0 <= i < (#[trigger] g[a]).1[0] ==> #[trigger] ks[i] != g[a].0
        }),
    decreases n,
{
    lemma_groups_partition(ks, n);
    if n > 0 {
        lemma_groups_first_seen(ks, n - 1);
        lemma_groups_partition(ks, n - 1);
        let g = groups_upto(ks, n - 1);
        let k = ks[n - 1];
        let last = (n - 1) as usize;
        lemma_first_index(keys_of(g), k);
        let h = groups_upto(ks, n);
        match first_index(keys_of(g), k) {
            Some(p) => {
                assert(h == g.update(p, (g[p].0, g[p].1.push(last))));
                assert forall|a: int| 0 <= a < h.len() implies (#[trigger] h[a]).1[0] == g[a].1[0]
                    && h[a].0 == g[a].0 by {}
                assert forall|a: int, b: int| 0 <= a < b < h.len() implies (#[trigger] h[a]).1[0]
                    < (#[trigger] h[b]).1[0] by {
                    assert(h[a].1[0] == g[a].1[0] && h[b].1[0] == g[b].1[0]);
                }
                assert forall|a: int, i: int|
                    0 <= a < h.len() && 0 <= i < (#[trigger] h[a]).1[0] implies #[trigger] ks[i]
                    != h[a].0 by {
                    assert(h[a].1[0] == g[a].1[0] && h[a].0 == g[a].0);
                }
            },
            None => {
                assert(h == g.push((k, seq![last])));
                assert forall|a: int, b: int| 0 <= a < b < h.len() implies (#[trigger] h[a]).1[0]
                    < (#[trigger] h[b]).1[0] by {
                    assert(h[a] == g[a]);
                    if b == g.len() {
                        assert(g[a].1[0] < n - 1);
                    } else {
                        assert(h[b] == g[b]);
                    }
                }
                assert forall|a: int, i: int|
                    0 <= a < h.len() && 0 <= i < (#[trigger] h[a]).1[0] implies #[trigger] ks[i]
                    != h[a].0 by {
                    if a == g.len() {
                        assert(h[a].0 == k);
                        if ks[i] == k {
                            assert(i < n - 1);
                            assert(listed(g, i as usize));
                            let (b, j) = choose|b: int, j: int|
                                0 <= b < g.len() && 0 <= j < g[b].1.len() && #[trigger] g[b].1[j]
                                    == i as usize;
                            assert(ks[g[b].1[j] as int] == g[b].0);
                            assert(keys_of(g)[b] == g[b].0);
                        }
                    } else {
                        assert(h[a] == g[a]);
                    }
                }
            },
        }
    }
}

} // verus!
