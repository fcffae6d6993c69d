//! Ordering of identifiers.
//!
//! Identifiers (area, province, substation, feeder and transformer ids) are
//! visited in ascending order. The order is that of `str`: lexicographic on
//! the UTF-8 bytes.

use vstd::prelude::*;
use vstd::utf8::encode_utf8;

verus! {

/// Strict lexicographic order on byte sequences (a proper prefix is smaller).
pub open spec fn lex_lt(a: Seq<u8>, b: Seq<u8>) -> bool
    decreases a.len(),
{
    if a.len() == 0 {
        b.len() > 0
    } else if b.len() == 0 {
        false
    } else if a[0] < b[0] {
        true
    } else if a[0] > b[0] {
        false
    } else {
        lex_lt(a.drop_first(), b.drop_first())
    }
}

/// The order of identifiers: the order of their UTF-8 encodings.
pub open spec fn id_lt(a: Seq<char>, b: Seq<char>) -> bool {
    lex_lt(encode_utf8(a), encode_utf8(b))
}

/// `a` comes no later than `b`.
pub open spec fn id_le(a: Seq<char>, b: Seq<char>) -> bool {
    !id_lt(b, a)
}

/// Every identifier comes no later than the ones after it.
pub open spec fn ids_sorted(s: Seq<String>) -> bool {
    forall|i: int, j: int| 0 <= i < j < s.len() ==> id_le(#[trigger] s[i]@, #[trigger] s[j]@)
}

/// No sequence precedes itself.
pub proof fn lemma_lex_irreflexive(a: Seq<u8>)
    ensures
        !lex_lt(a, a),
    decreases a.len(),
{
    if a.len() > 0 {
        lemma_lex_irreflexive(a.drop_first());
    }
}

/// The order is transitive.
pub proof fn lemma_lex_transitive(a: Seq<u8>, b: Seq<u8>, c: Seq<u8>)
    requires
        lex_lt(a, b),
        lex_lt(b, c),
    ensures
        lex_lt(a, c),
    decreases a.len(),
{
    if a.len() > 0 && b.len() > 0 && c.len() > 0 && a[0] == b[0] && b[0] == c[0] {
        lemma_lex_transitive(a.drop_first(), b.drop_first(), c.drop_first());
    }
}

/// Two sequences neither of which precedes the other are equal.
pub proof fn lemma_lex_trichotomy(a: Seq<u8>, b: Seq<u8>)
    ensures
        lex_lt(a, b) || lex_lt(b, a) || a == b,
    decreases a.len(),
{
    if a.len() > 0 && b.len() > 0 && a[0] == b[0] {
        lemma_lex_trichotomy(a.drop_first(), b.drop_first());
        if a.drop_first() == b.drop_first() {
            assert(a =~= seq![a[0]] + a.drop_first());
            assert(b =~= seq![b[0]] + b.drop_first());
        }
    } else if a.len() == 0 && b.len() == 0 {
        assert(a =~= b);
    }
}

/// The order is asymmetric.
pub proof fn lemma_lex_asymmetric(a: Seq<u8>, b: Seq<u8>)
    requires
        lex_lt(a, b),
    ensures
        !lex_lt(b, a),
{
    if lex_lt(b, a) {
        lemma_lex_transitive(a, b, a);
        lemma_lex_irreflexive(a);
    }
}

/// Compares two identifiers; `true` when `a` comes strictly before `b`.
pub fn id_less(a: &String, b: &String) -> (r: bool)
    ensures
        r == id_lt(a@, b@),
{
    let x = a.as_str().as_bytes();
    let y = b.as_str().as_bytes();
    let ghost xs = x@;
    let ghost ys = y@;
    let mut i: usize = 0;
    assert(x@.skip(0) =~= x@);
    assert(y@.skip(0) =~= y@);
    while i < x.len() && i < y.len() && x[i] == y[i]
        invariant
            i <= x@.len(),
            i <= y@.len(),
            x@ == encode_utf8(a@),
            y@ == encode_utf8(b@),
            forall|k: int| 0 <= k < i ==> x@[k] == y@[k],
            lex_lt(x@, y@) == lex_lt(x@.skip(i as int), y@.skip(i as int)),
        decreases x@.len() - i,
    {
        assert(x@.skip(i as int).drop_first() =~= x@.skip(i + 1));
        assert(y@.skip(i as int).drop_first() =~= y@.skip(i + 1));
        i = i + 1;
    }
    if i < x.len() && i < y.len() {
        x[i] < y[i]
    } else {
        i == x.len() && i < y.len()
    }
}

/// Sorts identifiers ascending in the order of `str`.
pub fn sort_ids(ids: &mut Vec<String>)
    ensures
        ids_sorted(final(ids)@),
        final(ids)@.to_multiset() == old(ids)@.to_multiset(),
{
    broadcast use vstd::seq_lib::group_to_multiset_ensures;

    let ghost orig = ids@;
    let mut out: Vec<String> = Vec::new();
    while ids.len() > 0
        invariant
            ids_sorted(out@),
            out@.to_multiset().add(ids@.to_multiset()) == orig.to_multiset(),
        decreases ids@.len(),
    {
        let ghost before = ids@;
        let ghost prev_out = out@;
        let x = ids.pop().unwrap();
        assert(before =~= ids@.push(x));
        proof {
            vstd::seq_lib::to_multiset_build(ids@, x);
        }
        assert(before.to_multiset() =~= ids@.to_multiset().insert(x));
        let mut pos: usize = 0;
        while pos < out.len() && !id_less(&x, &out[pos])
            invariant
                pos <= out@.len(),
                forall|k: int| 0 <= k < pos ==> !id_lt(x@, #[trigger] out@[k]@),
            decreases out@.len() - pos,
        {
            pos = pos + 1;
        }
        proof {
            let o = out@;
            assert forall|k: int| 0 <= k < pos implies id_le(#[trigger] o[k]@, x@) by {
                lemma_lex_trichotomy(encode_utf8(x@), encode_utf8(o[k]@));
                if encode_utf8(x@) == encode_utf8(o[k]@) {
                    lemma_lex_irreflexive(encode_utf8(x@));
                }
            }
            assert forall|k: int| pos <= k < o.len() implies id_le(x@, #[trigger] o[k]@) by {
                let xb = encode_utf8(x@);
                let pb = encode_utf8(o[pos as int]@);
                let kb = encode_utf8(o[k]@);
                assert(lex_lt(xb, pb));
                if k > pos {
                    assert(id_le(o[pos as int]@, o[k]@));
                    lemma_lex_trichotomy(pb, kb);
                    if lex_lt(pb, kb) {
                        lemma_lex_transitive(xb, pb, kb);
                    }
                }
                lemma_lex_asymmetric(xb, kb);
            }
            vstd::seq_lib::to_multiset_insert(o, pos as int, x);
        }
        out.insert(pos, x);
        proof {
            let n = out@;
            let o = n.remove(pos as int);
            assert(o =~= prev_out);
            assert(n.to_multiset() =~= prev_out.to_multiset().insert(x));
            assert(n.to_multiset().add(ids@.to_multiset()) =~= prev_out.to_multiset().add(
                before.to_multiset(),
            ));
            assert forall|i: int, j: int| 0 <= i < j < n.len() implies id_le(
                #[trigger] n[i]@,
                #[trigger] n[j]@,
            ) by {
                assert(n[i] == (if i < pos { o[i] } else if i == pos { x } else { o[i - 1] }));
                assert(n[j] == (if j < pos { o[j] } else if j == pos { x } else { o[j - 1] }));
            }
        }
    }
    *ids = out;
}

} // verus!

verus! {

/// Identifier views in ascending order.
pub open spec fn views_sorted(s: Seq<Seq<char>>) -> bool {
    forall|i: int, j: int| 0 <= i < j < s.len() ==> id_le(#[trigger] s[i], #[trigger] s[j])
}

pub open spec fn views_of(s: Seq<String>) -> Seq<Seq<char>> {
    s.map_values(|x: String| x@)
}

/// Two identifiers that neither precede each other are the same.
pub proof fn lemma_id_antisymmetric(a: Seq<char>, b: Seq<char>)
    requires
        id_le(a, b),
        id_le(b, a),
    ensures
        a == b,
{
    lemma_lex_trichotomy(encode_utf8(a), encode_utf8(b));
    vstd::utf8::encode_utf8_decode_utf8(a);
    vstd::utf8::encode_utf8_decode_utf8(b);
}

/// Equal multisets of strings have equal multisets of views.
pub proof fn lemma_views_multiset(a: Seq<String>, b: Seq<String>)
    requires
        a.to_multiset() == b.to_multiset(),
    ensures
        views_of(a).to_multiset() == views_of(b).to_multiset(),
    decreases a.len(),
{
    broadcast use vstd::seq_lib::group_to_multiset_ensures;

    assert(a.to_multiset().len() == a.len());
    assert(b.to_multiset().len() == b.len());
    if a.len() == 0 {
        assert(b.len() == 0);
        assert(views_of(a) =~= Seq::<Seq<char>>::empty());
        assert(views_of(b) =~= Seq::<Seq<char>>::empty());
    } else {
        let x = a[0];
        assert(a.to_multiset().count(x) > 0);
        assert(b.contains(x));
        let j = choose|j: int| 0 <= j < b.len() && b[j] == x;
        let a1 = a.drop_first();
        let b1 = b.remove(j);
        assert(a1 =~= a.remove(0));
        assert(a1.to_multiset() =~= b1.to_multiset());
        lemma_views_multiset(a1, b1);
        assert(views_of(a) =~= views_of(a1).insert(0, x@));
        assert(views_of(b) =~= views_of(b1).insert(j, x@));
        vstd::seq_lib::to_multiset_insert(views_of(a1), 0, x@);
        vstd::seq_lib::to_multiset_insert(views_of(b1), j, x@);
    }
}

/// Two ascending orders of the same identifiers are the same order.
pub proof fn lemma_sorted_views_unique(a: Seq<Seq<char>>, b: Seq<Seq<char>>)
    requires
        views_sorted(a),
        views_sorted(b),
        a.to_multiset() == b.to_multiset(),
    ensures
        a == b,
    decreases a.len(),
{
    broadcast use vstd::seq_lib::group_to_multiset_ensures;

    assert(a.to_multiset().len() == a.len());
    assert(b.to_multiset().len() == b.len());
    if a.len() == 0 {
        assert(b.len() == 0);
        assert(a =~= b);
    } else {
        assert(b.len() == a.len());
        assert(a.to_multiset().count(a[0]) > 0);
        assert(b.contains(a[0]));
        let j = choose|j: int| 0 <= j < b.len() && b[j] == a[0];
        assert(b.to_multiset().count(b[0]) > 0);
        assert(a.contains(b[0]));
        let i = choose|i: int| 0 <= i < a.len() && a[i] == b[0];
        if j > 0 {
            assert(id_le(b[0], b[j]));
        } else {
            lemma_lex_irreflexive(encode_utf8(b[0]));
        }
        if i > 0 {
            assert(id_le(a[0], a[i]));
        } else {
            lemma_lex_irreflexive(encode_utf8(a[0]));
        }
        lemma_id_antisymmetric(a[0], b[0]);
        assert(a.drop_first() =~= a.remove(0));
        assert(b.drop_first() =~= b.remove(0));
        assert(a.drop_first().to_multiset() =~= b.drop_first().to_multiset());
        lemma_sorted_views_unique(a.drop_first(), b.drop_first());
        assert forall|k: int| 0 <= k < a.len() implies a[k] == b[k] by {
            if k > 0 {
                assert(a[k] == a.drop_first()[k - 1]);
                assert(b[k] == b.drop_first()[k - 1]);
            }
        }
        assert(a =~= b);
    }
}

/// The ascending order of a set of identifiers does not depend on the order
/// they were given in: any two sorted arrangements of the same identifiers
/// list the same identifiers in the same order.
pub proof fn lemma_sort_order_unique(a: Seq<String>, b: Seq<String>)
    requires
        ids_sorted(a),
        ids_sorted(b),
        a.to_multiset() == b.to_multiset(),
    ensures
        views_of(a) == views_of(b),
{
    lemma_views_multiset(a, b);
    assert forall|i: int, j: int| 0 <= i < j < views_of(a).len() implies id_le(
        #[trigger] views_of(a)[i],
        #[trigger] views_of(a)[j],
    ) by {
        assert(id_le(a[i]@, a[j]@));
    }
    assert forall|i: int, j: int| 0 <= i < j < views_of(b).len() implies id_le(
        #[trigger] views_of(b)[i],
        #[trigger] views_of(b)[j],
    ) by {
        assert(id_le(b[i]@, b[j]@));
    }
    lemma_sorted_views_unique(views_of(a), views_of(b));
}

} // verus!

verus! {

/// Where key `k` goes into the order `ord` of the keys `ks`, searching from
/// `j`: before the first listed key that `k` precedes, else at the end.
pub open spec fn insert_point(ks: Seq<Seq<char>>, ord: Seq<int>, k: Seq<char>, j: int) -> int
    decreases ord.len() - j,
{
    if j < 0 || j >= ord.len() {
        ord.len() as int
    } else if id_lt(k, ks[ord[j]]) {
        j
    } else {
        insert_point(ks, ord, k, j + 1)
    }
}

/// The positions of the first `n` keys in ascending key order, keys that
/// tie kept in the order they come.
pub open spec fn order_upto(ks: Seq<Seq<char>>, n: int) -> Seq<int>
    decreases n,
{
    if n <= 0 {
        Seq::empty()
    } else {
        let t = order_upto(ks, n - 1);
        t.insert(insert_point(ks, t, ks[n - 1], 0), n - 1)
    }
}

/// The positions of all keys in ascending key order.
pub open spec fn ascending_order(ks: Seq<Seq<char>>) -> Seq<int> {
    order_upto(ks, ks.len() as int)
}

proof fn lemma_insert_point(ks: Seq<Seq<char>>, ord: Seq<int>, k: Seq<char>, j: int)
    requires
        0 <= j <= ord.len(),
    ensures
        j <= insert_point(ks, ord, k, j) <= ord.len(),
        forall|t: int| j <= t < insert_point(ks, ord, k, j) ==> !id_lt(k, #[trigger] ks[ord[t]]),
        insert_point(ks, ord, k, j) < ord.len() ==> id_lt(k, ks[ord[insert_point(ks, ord, k, j)]]),
    decreases ord.len() - j,
{
    if j < ord.len() && !id_lt(k, ks[ord[j]]) {
        lemma_insert_point(ks, ord, k, j + 1);
    }
}

proof fn lemma_insert_point_skip(ks: Seq<Seq<char>>, ord: Seq<int>, k: Seq<char>, j: int)
    requires
        0 <= j <= ord.len(),
        forall|t: int| 0 <= t < j ==> !id_lt(k, #[trigger] ks[ord[t]]),
    ensures
        insert_point(ks, ord, k, 0) == insert_point(ks, ord, k, j),
    decreases j,
{
    if j > 0 {
        lemma_insert_point_skip(ks, ord, k, j - 1);
    }
}

/// The order of the first `n` keys lists every position below `n` exactly
/// once, with the keys ascending along it.
pub proof fn lemma_order_upto(ks: Seq<Seq<char>>, n: int)
    requires
        0 <= n <= ks.len(),
    ensures
        order_upto(ks, n).len() == n,
        forall|i: int| 0 <= i < n ==> 0 <= #[trigger] order_upto(ks, n)[i] < n,
        order_upto(ks, n).no_duplicates(),
        forall|x: int| 0 <= x < n ==> #[trigger] order_upto(ks, n).contains(x),
        forall|i: int, j: int|
            0 <= i < j < n ==> id_le(
                #[trigger] ks[order_upto(ks, n)[i]],
                #[trigger] ks[order_upto(ks, n)[j]],
            ),
    decreases n,
{
    if n > 0 {
        lemma_order_upto(ks, n - 1);
        let t = order_upto(ks, n - 1);
        let k = ks[n - 1];
        let p = insert_point(ks, t, k, 0);
        lemma_insert_point(ks, t, k, 0);
        let o = order_upto(ks, n);
        assert(o == t.insert(p, n - 1));
        t.insert_ensures(p, n - 1);
        assert forall|i: int| 0 <= i < n implies 0 <= #[trigger] o[i] < n by {
            if i < p {
                assert(o[i] == t[i]);
            } else if i > p {
                assert(o[i] == t[i - 1]);
            }
        }
        assert forall|i: int, j: int| 0 <= i < n && 0 <= j < n && i != j implies o[i] != o[j] by {
            if i < p {
                assert(o[i] == t[i]);
            } else if i > p {
                assert(o[i] == t[i - 1]);
            }
            if j < p {
                assert(o[j] == t[j]);
            } else if j > p {
                assert(o[j] == t[j - 1]);
            }
        }
        assert forall|x: int| 0 <= x < n implies #[trigger] o.contains(x) by {
            if x == n - 1 {
                assert(o[p] == x);
            } else {
                assert(t.contains(x));
                let i = choose|i: int| 0 <= i < t.len() && t[i] == x;
                if i < p {
                    assert(o[i] == x);
                } else {
                    assert(o[i + 1] == x);
                }
            }
        }
        assert forall|i: int, j: int| 0 <= i < j < n implies id_le(
            #[trigger] ks[o[i]],
            #[trigger] ks[o[j]],
        ) by {
            let kb = encode_utf8(k);
            if i < p && j < p {
                assert(o[i] == t[i] && o[j] == t[j]);
            } else if i > p && j > p {
                assert(o[i] == t[i - 1] && o[j] == t[j - 1]);
            } else if i < p && j == p {
                assert(o[i] == t[i]);
                let ib = encode_utf8(ks[t[i]]);
                assert(!id_lt(k, ks[t[i]]));
                lemma_lex_trichotomy(kb, ib);
                if kb == ib {
                    lemma_lex_irreflexive(kb);
                } else {
                    lemma_lex_asymmetric(ib, kb);
                }
            } else if i < p && j > p {
                assert(o[i] == t[i] && o[j] == t[j - 1]);
                assert(id_le(ks[t[i]], ks[t[j - 1]]));
            } else if i == p {
                assert(o[j] == t[j - 1]);
                let pb = encode_utf8(ks[t[p]]);
                let jb = encode_utf8(ks[t[j - 1]]);
                assert(lex_lt(kb, pb));
                if j - 1 > p {
                    assert(id_le(ks[t[p]], ks[t[j - 1]]));
                    lemma_lex_trichotomy(pb, jb);
                    if lex_lt(pb, jb) {
                        lemma_lex_transitive(kb, pb, jb);
                    }
                }
                lemma_lex_asymmetric(kb, jb);
            }
        }
    }
}

/// The positions of the identifiers in ascending order; identifiers that
/// are equal keep the order they come in.
pub fn ascending_positions(ks: &Vec<String>) -> (r: Vec<usize>)
    ensures
        r@.map_values(|x: usize| x as int) == ascending_order(views_of(ks@)),
{
    let ghost vs = views_of(ks@);
    let mut out: Vec<usize> = Vec::new();
    let mut i: usize = 0;
    while i < ks.len()
        invariant
            i <= ks@.len(),
            vs == views_of(ks@),
            out@.map_values(|x: usize| x as int) == order_upto(vs, i as int),
        decreases ks@.len() - i,
    {
        let ghost t = order_upto(vs, i as int);
        proof {
            lemma_order_upto(vs, i as int);
        }
        let mut j: usize = 0;
        assert forall|q: int| 0 <= q < out@.len() implies #[trigger] out@[q] < i by {
            assert(t[q] == out@[q] as int);
        }
        while j < out.len() && !id_less(&ks[i], &ks[out[j]])
            invariant
                i < ks@.len(),
                vs == views_of(ks@),
                t == order_upto(vs, i as int),
                t.len() == i,
                forall|q: int| 0 <= q < i ==> 0 <= #[trigger] t[q] < i,
                out@.map_values(|x: usize| x as int) == t,
                forall|q: int| 0 <= q < out@.len() ==> #[trigger] out@[q] < i,
                j <= out@.len(),
                forall|q: int| 0 <= q < j ==> !id_lt(vs[i as int], #[trigger] vs[t[q]]),
            decreases out@.len() - j,
        {
            assert(t[j as int] == out@[j as int] as int);
            j = j + 1;
        }
        proof {
            if j < out.len() {
                assert(t[j as int] == out@[j as int] as int);
            }
            lemma_insert_point_skip(vs, t, vs[i as int], j as int);
            lemma_insert_point(vs, t, vs[i as int], j as int);
        }
        out.insert(j, i);
        proof {
            assert(out@.map_values(|x: usize| x as int) =~= order_upto(vs, i + 1));
        }
        i = i + 1;
    }
    out
}

} // verus!
