//! Index from feeder ids to the load-profile keys that name them.
//!
//! Each feeder name found in a key gives the feeder id `letters ++ digits`.
//! The first key that names a feeder is kept for it; every later naming of
//! the same feeder is reported as a duplicate, together with the key that
//! was kept.

use vstd::prelude::*;
use vstd::string::*;
use crate::pattern::{
    is_digit, is_upper, key_names, lemma_names_shape, names_from, pairs_view, regex_feeder_names,
};
use crate::assoc::{first_index, keys_of, entry_keys, lemma_first_index, position_of};

verus! {

/// One naming event: (feeder id, key).
pub open spec fn named(key: Seq<char>, c: (Seq<char>, Seq<char>)) -> (Seq<char>, Seq<char>) {
    (c.0 + c.1, key)
}

/// The naming events of the first `n` keys, key by key and, within a key,
/// in the order of its names.
pub open spec fn events_upto(
    keys: Seq<Seq<char>>,
    names: Seq<Seq<(Seq<char>, Seq<char>)>>,
    n: int,
) -> Seq<(Seq<char>, Seq<char>)>
    decreases n,
{
    if n <= 0 {
        Seq::empty()
    } else {
        events_upto(keys, names, n - 1) + names[n - 1].map_values(
            |c: (Seq<char>, Seq<char>)| named(keys[n - 1], c),
        )
    }
}

/// The position of the entry of `m` whose feeder id is `k`.
pub open spec fn find_id(m: Seq<(Seq<char>, Seq<char>)>, k: Seq<char>) -> Option<int> {
    first_index(keys_of(m), k)
}

/// The index after the first `n` events: the first key of each feeder id.
pub open spec fn kept(ev: Seq<(Seq<char>, Seq<char>)>, n: int) -> Seq<(Seq<char>, Seq<char>)>
    decreases n,
{
    if n <= 0 {
        Seq::empty()
    } else {
        let m = kept(ev, n - 1);
        if find_id(m, ev[n - 1].0) is Some {
            m
        } else {
            m.push(ev[n - 1])
        }
    }
}

/// The duplicates among the first `n` events: (kept key, feeder id, key).
pub open spec fn duplicates(ev: Seq<(Seq<char>, Seq<char>)>, n: int) -> Seq<
    (Seq<char>, Seq<char>, Seq<char>),
>
    decreases n,
{
    if n <= 0 {
        Seq::empty()
    } else {
        let m = kept(ev, n - 1);
        let d = duplicates(ev, n - 1);
        match find_id(m, ev[n - 1].0) {
            Some(p) => d.push((m[p].1, ev[n - 1].0, ev[n - 1].1)),
            None => d,
        }
    }
}

pub open spec fn strings_view(v: Seq<String>) -> Seq<Seq<char>> {
    v.map_values(|s: String| s@)
}

pub open spec fn names_view(v: Seq<Vec<(String, String)>>) -> Seq<Seq<(Seq<char>, Seq<char>)>> {
    v.map_values(|w: Vec<(String, String)>| pairs_view(w@))
}

pub open spec fn triples_view(v: Seq<(String, String, String)>) -> Seq<
    (Seq<char>, Seq<char>, Seq<char>),
> {
    v.map_values(|t: (String, String, String)| (t.0@, t.1@, t.2@))
}

/// Feeder ids with the key kept for each, and the duplicates met.
pub struct FeederIndex {
    pub entries: Vec<(String, String)>,
    pub duplicates: Vec<(String, String, String)>,
}

proof fn lemma_events_prefix(
    keys: Seq<Seq<char>>,
    names: Seq<Seq<(Seq<char>, Seq<char>)>>,
    a: int,
    b: int,
)
    requires
        0 <= a <= b,
    ensures
        events_upto(keys, names, a).len() <= events_upto(keys, names, b).len(),
        forall|t: int|
            0 <= t < events_upto(keys, names, a).len() ==> #[trigger] events_upto(
                keys,
                names,
                b,
            )[t] == events_upto(keys, names, a)[t],
    decreases b - a,
{
    if a < b {
        lemma_events_prefix(keys, names, a, b - 1);
    }
}

/// The event of name `j` of key `i` stands at position
/// `events_upto(i).len() + j` of all events.
proof fn lemma_event_at(
    keys: Seq<Seq<char>>,
    names: Seq<Seq<(Seq<char>, Seq<char>)>>,
    n: int,
    i: int,
    j: int,
)
    requires
        0 <= i < n,
        0 <= j < names[i].len(),
    ensures
        events_upto(keys, names, i).len() + j < events_upto(keys, names, n).len(),
        events_upto(keys, names, n)[events_upto(keys, names, i).len() + j] == named(
            keys[i],
            names[i][j],
        ),
{
    lemma_events_prefix(keys, names, i + 1, n);
}

/// Builds the feeder index from the keys and the feeder names found in each
/// key (`names[i]` for `keys[i]`).
pub fn index_feeders(keys: &Vec<String>, names: &Vec<Vec<(String, String)>>) -> (r: FeederIndex)
    requires
        keys@.len() == names@.len(),
    ensures
        ({
            let ev = events_upto(strings_view(keys@), names_view(names@), keys@.len() as int);
            &&& pairs_view(r.entries@) == kept(ev, ev.len() as int)
            &&& triples_view(r.duplicates@) == duplicates(ev, ev.len() as int)
        }),
{
    let ghost ks = strings_view(keys@);
    let ghost ns = names_view(names@);
    let ghost all = events_upto(ks, ns, keys@.len() as int);
    let mut entries: Vec<(String, String)> = Vec::new();
    let mut dups: Vec<(String, String, String)> = Vec::new();
    let mut i: usize = 0;
    proof {
        lemma_events_prefix(ks, ns, 0, keys@.len() as int);
    }
    while i < keys.len()
        invariant
            i <= keys@.len(),
            keys@.len() == names@.len(),
            ks == strings_view(keys@),
            ns == names_view(names@),
            all == events_upto(ks, ns, keys@.len() as int),
            events_upto(ks, ns, i as int).len() <= all.len(),
            pairs_view(entries@) == kept(all, events_upto(ks, ns, i as int).len() as int),
            triples_view(dups@) == duplicates(all, events_upto(ks, ns, i as int).len() as int),
        decreases keys@.len() - i,
    {
        let key = &keys[i];
        let nm = &names[i];
        let ghost base = events_upto(ks, ns, i as int).len() as int;
        let mut j: usize = 0;
        while j < nm.len()
            invariant
                0 <= i < keys@.len(),
                keys@.len() == names@.len(),
                key == keys@[i as int],
                nm == names@[i as int],
                j <= nm@.len(),
                ks == strings_view(keys@),
                ns == names_view(names@),
                all == events_upto(ks, ns, keys@.len() as int),
                base == events_upto(ks, ns, i as int).len(),
                base + j <= all.len(),
                pairs_view(entries@) == kept(all, base + j),
                triples_view(dups@) == duplicates(all, base + j),
            decreases nm@.len() - j,
        {
            let mut fd = nm[j].0.clone();
            fd.append(nm[j].1.as_str());
            proof {
                lemma_event_at(ks, ns, keys@.len() as int, i as int, j as int);
                assert(ns[i as int][j as int] == (nm@[j as int].0@, nm@[j as int].1@));
                assert(all[base + j] == (fd@, key@));
            }
            let ghost m = pairs_view(entries@);
            proof {
                assert(entry_keys(entries@) =~= keys_of(m));
            }
            match position_of(&entries, &fd) {
                Some(p) => {
                    proof {
                        lemma_first_index(keys_of(m), fd@);
                    }
                    let o = entries[p].1.clone();
                    dups.push((o, fd, key.clone()));
                    proof {
                        assert(triples_view(dups@) =~= duplicates(all, base + j + 1));
                    }
                },
                None => {
                    entries.push((fd, key.clone()));
                    proof {
                        assert(pairs_view(entries@) =~= kept(all, base + j + 1));
                    }
                },
            }
            j = j + 1;
        }
        proof {
            assert(events_upto(ks, ns, i + 1).len() == base + nm@.len());
            lemma_events_prefix(ks, ns, i + 1, keys@.len() as int);
        }
        i = i + 1;
    }
    FeederIndex { entries, duplicates: dups }
}

/// Finds the feeder names of every key and builds the feeder index.
pub fn feeder_index(keys: &Vec<String>) -> (r: FeederIndex)
    ensures
        ({
            let ks = strings_view(keys@);
            let ns = ks.map_values(|k: Seq<char>| key_names(k));
            let ev = events_upto(ks, ns, keys@.len() as int);
            &&& pairs_view(r.entries@) == kept(ev, ev.len() as int)
            &&& triples_view(r.duplicates@) == duplicates(ev, ev.len() as int)
        }),
{
    let mut names: Vec<Vec<(String, String)>> = Vec::new();
    let mut i: usize = 0;
    while i < keys.len()
        invariant
            i <= keys@.len(),
            names@.len() == i,
            forall|t: int| 0 <= t < i ==> #[trigger] pairs_view(names@[t]@) == key_names(keys@[t]@),
        decreases keys@.len() - i,
    {
        let found = regex_feeder_names(keys[i].as_str());
        names.push(found);
        i = i + 1;
    }
    let r = index_feeders(keys, &names);
    proof {
        let ks = strings_view(keys@);
        assert(names_view(names@) =~= ks.map_values(|k: Seq<char>| key_names(k)));
    }
    r
}

/// The key kept for feeder id `fid`, or `"-"` when no key names it.
pub fn feeder_key(entries: &Vec<(String, String)>, fid: &String) -> (r: String)
    ensures
        r@ == (match find_id(pairs_view(entries@), fid@) {
            Some(p) => pairs_view(entries@)[p].1,
            None => seq!['-'],
        }),
{
    proof {
        assert(entry_keys(entries@) =~= keys_of(pairs_view(entries@)));
    }
    match position_of(entries, fid) {
        Some(p) => {
            proof {
                lemma_first_index(keys_of(pairs_view(entries@)), fid@);
            }
            entries[p].1.clone()
        },
        None => {
            let r = String::from_str("-");
            proof {
                reveal_strlit("-");
            }
            r
        },
    }
}

} // verus!

verus! {

/// The index keeps, for every feeder id that some event names, exactly one
/// entry: the key of the first event that names it; every other event is a
/// duplicate.
pub proof fn lemma_index_first_wins(ev: Seq<(Seq<char>, Seq<char>)>, n: int)
    requires
        0 <= n <= ev.len(),
    ensures
        forall|a: int, b: int|
            0 <= a < b < kept(ev, n).len() ==> #[trigger] kept(ev, n)[a].0 != #[trigger] kept(
                ev,
                n,
            )[b].0,
        forall|t: int| 0 <= t < n ==> #[trigger] find_id(kept(ev, n), ev[t].0) is Some,
        forall|a: int|
            0 <= a < kept(ev, n).len() ==> exists|t: int|
                0 <= t < n && ev[t] == #[trigger] kept(ev, n)[a] && forall|u: int|
                    0 <= u < t ==> ev[u].0 != ev[t].0,
        kept(ev, n).len() + duplicates(ev, n).len() == n,
    decreases n,
{
    if n > 0 {
        lemma_index_first_wins(ev, n - 1);
        let m = kept(ev, n - 1);
        let e = ev[n - 1];
        lemma_first_index(keys_of(m), e.0);
        let k = kept(ev, n);
        if find_id(m, e.0) is None {
            assert(k == m.push(e));
            assert forall|a: int, b: int| 0 <= a < b < k.len() implies #[trigger] k[a].0
                != #[trigger] k[b].0 by {
                if b == m.len() {
                    assert(keys_of(m)[a] == m[a].0);
                }
            }
            assert forall|t: int| 0 <= t < n implies #[trigger] find_id(k, ev[t].0) is Some by {
                lemma_first_index(keys_of(k), ev[t].0);
                if t < n - 1 {
                    lemma_first_index(keys_of(m), ev[t].0);
                    let p = find_id(m, ev[t].0)->0;
                    assert(keys_of(k)[p] == ev[t].0);
                } else {
                    assert(keys_of(k)[m.len() as int] == ev[t].0);
                }
            }
            assert forall|a: int| 0 <= a < k.len() implies exists|t: int|
                0 <= t < n && ev[t] == #[trigger] k[a] && forall|u: int|
                    0 <= u < t ==> ev[u].0 != ev[t].0 by {
                if a == m.len() {
                    assert forall|u: int| 0 <= u < n - 1 implies #[trigger] ev[u].0 != ev[n - 1].0 by {
                        lemma_first_index(keys_of(m), ev[u].0);
                        assert(find_id(m, ev[u].0) is Some);
                    }
                    assert(ev[n - 1] == k[a]);
                } else {
                    assert(k[a] == m[a]);
                }
            }
        }
    }
}

} // verus!

verus! {

/// A feeder id is five characters: three upper-case letters, then two digits.
pub open spec fn feeder_id_shape(id: Seq<char>) -> bool {
    &&& id.len() == 5
    &&& is_upper(id[0]) && is_upper(id[1]) && is_upper(id[2])
    &&& is_digit(id[3]) && is_digit(id[4])
}

proof fn lemma_events_shape(keys: Seq<Seq<char>>, n: int)
    requires
        0 <= n <= keys.len(),
    ensures
        ({
            let ns = keys.map_values(|k: Seq<char>| key_names(k));
            forall|t: int|
                0 <= t < events_upto(keys, ns, n).len() ==> feeder_id_shape(
                    #[trigger] events_upto(keys, ns, n)[t].0,
                )
        }),
    decreases n,
{
    let ns = keys.map_values(|k: Seq<char>| key_names(k));
    if n > 0 {
        lemma_events_shape(keys, n - 1);
        lemma_names_shape(keys[n - 1], 0);
        let prev = events_upto(keys, ns, n - 1);
        let cur = events_upto(keys, ns, n);
        let nm = ns[n - 1];
        assert(nm == key_names(keys[n - 1]));
        assert forall|t: int| 0 <= t < cur.len() implies feeder_id_shape(#[trigger] cur[t].0) by {
            if t >= prev.len() {
                let c = nm[t - prev.len()];
                assert(cur[t] == named(keys[n - 1], c));
                assert(names_from(keys[n - 1], 0)[t - prev.len()] == c);
                assert(cur[t].0 =~= c.0 + c.1);
            } else {
                assert(cur[t] == prev[t]);
            }
        }
    }
}

/// Every feeder id in the index of a list of keys is three upper-case
/// letters followed by two digits.
pub proof fn lemma_index_ids_shape(keys: Seq<Seq<char>>)
    ensures
        ({
            let ns = keys.map_values(|k: Seq<char>| key_names(k));
            let ev = events_upto(keys, ns, keys.len() as int);
            forall|a: int|
                0 <= a < kept(ev, ev.len() as int).len() ==> feeder_id_shape(
                    #[trigger] kept(ev, ev.len() as int)[a].0,
                )
        }),
{
    let ns = keys.map_values(|k: Seq<char>| key_names(k));
    let ev = events_upto(keys, ns, keys.len() as int);
    lemma_events_shape(keys, keys.len() as int);
    lemma_index_first_wins(ev, ev.len() as int);
    assert forall|a: int| 0 <= a < kept(ev, ev.len() as int).len() implies feeder_id_shape(
        #[trigger] kept(ev, ev.len() as int)[a].0,
    ) by {
        let t = choose|t: int|
            0 <= t < ev.len() && ev[t] == kept(ev, ev.len() as int)[a] && forall|u: int|
                0 <= u < t ==> ev[u].0 != ev[t].0;
        assert(feeder_id_shape(ev[t].0));
    }
}

} // verus!

verus! {

/// Each reported duplicate `(kept, id, key)` is an event naming feeder `id`
/// from `key` that comes after an earlier event naming the same feeder, and
/// `kept` is the key of the first event that named it.
pub proof fn lemma_duplicates_report(ev: Seq<(Seq<char>, Seq<char>)>, n: int)
    requires
        0 <= n <= ev.len(),
    ensures
        forall|d: int|
            0 <= d < duplicates(ev, n).len() ==> exists|t: int, u: int|
                0 <= u < t < n && ev[t].0 == (#[trigger] duplicates(ev, n)[d]).1 && ev[t].1
                    == duplicates(ev, n)[d].2 && ev[u].0 == ev[t].0 && ev[u].1 == duplicates(
                    ev,
                    n,
                )[d].0 && forall|v: int| 0 <= v < u ==> ev[v].0 != ev[u].0,
    decreases n,
{
    if n > 0 {
        lemma_duplicates_report(ev, n - 1);
        lemma_index_first_wins(ev, n - 1);
        let m = kept(ev, n - 1);
        let e = ev[n - 1];
        lemma_first_index(keys_of(m), e.0);
        let dn = duplicates(ev, n);
        let dp = duplicates(ev, n - 1);
        match find_id(m, e.0) {
            Some(p) => {
                assert(dn == dp.push((m[p].1, e.0, e.1)));
                assert forall|d: int| 0 <= d < dn.len() implies exists|t: int, u: int|
                    0 <= u < t < n && ev[t].0 == (#[trigger] dn[d]).1 && ev[t].1 == dn[d].2
                        && ev[u].0 == ev[t].0 && ev[u].1 == dn[d].0 && forall|v: int|
                        0 <= v < u ==> ev[v].0 != ev[u].0 by {
                    if d < dp.len() {
                        assert(dn[d] == dp[d]);
                        let (t, u) = choose|t: int, u: int|
                            0 <= u < t < n - 1 && ev[t].0 == (#[trigger] dp[d]).1 && ev[t].1
                                == dp[d].2 && ev[u].0 == ev[t].0 && ev[u].1 == dp[d].0 && forall|
                                v: int,
                            |
                                0 <= v < u ==> ev[v].0 != ev[u].0;
                        assert(0 <= u < t < n);
                    } else {
                        assert(keys_of(m)[p] == m[p].0);
                        let u = choose|u: int|
                            0 <= u < n - 1 && ev[u] == #[trigger] m[p] && forall|w: int|
                                0 <= w < u ==> ev[w].0 != ev[u].0;
                        assert(dn[d] == (m[p].1, e.0, e.1));
                        assert(0 <= u < n - 1 && ev[n - 1].0 == dn[d].1);
                    }
                }
            },
            None => {
                assert(dn == dp);
            },
        }
    }
}

} // verus!
