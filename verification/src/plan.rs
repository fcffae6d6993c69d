//! The transformer records of a run: which records exist, in which order,
//! and under which ids.
//!
//! Areas are taken in the order given; an id that names no area gives no
//! record. Within an area, provinces, substations, feeders and transformers
//! are taken in ascending id order; a substation whose data could not be
//! read is passed over. Each transformer gives one record.

use vstd::prelude::*;
use crate::assoc::{first_index, entry_keys, keys_of};
use crate::order::{ascending_order, ascending_positions, id_le, lemma_order_upto, views_of};

verus! {

/// The ids under one substation: whether its data could be read, and its
/// feeders, each with the ids of its transformers.
pub struct SubIds {
    pub id: String,
    pub readable: bool,
    pub feeders: Vec<(String, Vec<String>)>,
}

/// The ids under one area: its provinces, each with its substations.
pub struct AreaIds {
    pub id: String,
    pub provinces: Vec<(String, Vec<SubIds>)>,
}

/// The ids of one transformer record.
pub struct RecordKey {
    pub area: String,
    pub province: String,
    pub substation: String,
    pub feeder: String,
    pub transformer: String,
}

/// (area, province, substation, feeder, transformer).
pub type KeyView = (Seq<char>, Seq<char>, Seq<char>, Seq<char>, Seq<char>);

/// (id, readable, feeders with their transformer ids).
pub type SubView = (Seq<char>, bool, Seq<(Seq<char>, Seq<Seq<char>>)>);

/// (id, provinces with their substations).
pub type AreaView = (Seq<char>, Seq<(Seq<char>, Seq<SubView>)>);

pub open spec fn key_view(k: RecordKey) -> KeyView {
    (k.area@, k.province@, k.substation@, k.feeder@, k.transformer@)
}

pub open spec fn keys_view(v: Seq<RecordKey>) -> Seq<KeyView> {
    v.map_values(|k: RecordKey| key_view(k))
}

pub open spec fn feeders_view(v: Seq<(String, Vec<String>)>) -> Seq<(Seq<char>, Seq<Seq<char>>)> {
    v.map_values(|f: (String, Vec<String>)| (f.0@, views_of(f.1@)))
}

pub open spec fn sub_view(s: SubIds) -> SubView {
    (s.id@, s.readable, feeders_view(s.feeders@))
}

pub open spec fn subs_view(v: Seq<SubIds>) -> Seq<SubView> {
    v.map_values(|s: SubIds| sub_view(s))
}

pub open spec fn provinces_view(v: Seq<(String, Vec<SubIds>)>) -> Seq<(Seq<char>, Seq<SubView>)> {
    v.map_values(|p: (String, Vec<SubIds>)| (p.0@, subs_view(p.1@)))
}

pub open spec fn area_view(a: AreaIds) -> AreaView {
    (a.id@, provinces_view(a.provinces@))
}

pub open spec fn areas_view(v: Seq<AreaIds>) -> Seq<AreaView> {
    v.map_values(|a: AreaIds| area_view(a))
}

pub open spec fn sub_ids(subs: Seq<SubView>) -> Seq<Seq<char>> {
    subs.map_values(|s: SubView| s.0)
}

pub open spec fn area_ids(areas: Seq<AreaView>) -> Seq<Seq<char>> {
    areas.map_values(|a: AreaView| a.0)
}

/// The records of one feeder: one per transformer, in ascending id order.
pub open spec fn feeder_records(
    a: Seq<char>,
    p: Seq<char>,
    s: Seq<char>,
    f: Seq<char>,
    ts: Seq<Seq<char>>,
) -> Seq<KeyView> {
    let o = ascending_order(ts);
    Seq::new(o.len(), |i: int| (a, p, s, f, ts[o[i]]))
}

/// The records of one substation: those of its feeders in ascending id
/// order, or none when its data could not be read.
pub open spec fn substation_records(a: Seq<char>, p: Seq<char>, sb: SubView) -> Seq<KeyView> {
    if sb.1 {
        let fs = sb.2;
        let o = ascending_order(keys_of(fs));
        Seq::new(o.len(), |i: int| feeder_records(a, p, sb.0, fs[o[i]].0, fs[o[i]].1)).flatten()
    } else {
        Seq::empty()
    }
}

/// The records of one province: those of its substations in ascending id
/// order.
pub open spec fn province_records(a: Seq<char>, p: Seq<char>, subs: Seq<SubView>) -> Seq<KeyView> {
    let o = ascending_order(sub_ids(subs));
    Seq::new(o.len(), |i: int| substation_records(a, p, subs[o[i]])).flatten()
}

/// The records of one area: those of its provinces in ascending id order.
pub open spec fn area_records(ar: AreaView) -> Seq<KeyView> {
    let ps = ar.1;
    let o = ascending_order(keys_of(ps));
    Seq::new(o.len(), |i: int| province_records(ar.0, ps[o[i]].0, ps[o[i]].1)).flatten()
}

/// The records of the areas named by `aids`, area by area in that order; an
/// id that names no area gives nothing, one that names several gives the
/// first.
pub open spec fn planned(aids: Seq<Seq<char>>, areas: Seq<AreaView>) -> Seq<KeyView> {
    Seq::new(
        aids.len(),
        |i: int|
            match first_index(area_ids(areas), aids[i]) {
                Some(x) => area_records(areas[x]),
                None => Seq::empty(),
            },
    ).flatten()
}

/// The ids of a list of pairs keyed by ids.
fn ids_of<V>(v: &Vec<(String, V)>) -> (r: Vec<String>)
    ensures
        views_of(r@) == entry_keys(v@),
{
    let mut r: Vec<String> = Vec::new();
    let mut i: usize = 0;
    while i < v.len()
        invariant
            i <= v@.len(),
            r@.len() == i,
            views_of(r@) == entry_keys(v@).take(i as int),
        decreases v@.len() - i,
    {
        let ghost prev = r@;
        let c = v[i].0.clone();
        assert(c@ == entry_keys(v@)[i as int]);
        r.push(c);
        proof {
            assert(r@ == prev.push(c));
            assert forall|q: int| 0 <= q <= i implies #[trigger] views_of(r@)[q] == entry_keys(
                v@,
            ).take(i + 1)[q] by {
                if q < i {
                    assert(views_of(r@)[q] == views_of(prev)[q]);
                }
            }
            assert(views_of(r@) =~= entry_keys(v@).take(i + 1));
        }
        i = i + 1;
    }
    proof {
        assert(entry_keys(v@).take(i as int) =~= entry_keys(v@));
    }
    r
}

fn append_feeder(
    out: &mut Vec<RecordKey>,
    a: &String,
    p: &String,
    s: &String,
    f: &String,
    ts: &Vec<String>,
)
    ensures
        keys_view(final(out)@) == keys_view(old(out)@) + feeder_records(a@, p@, s@, f@, views_of(ts@)),
{
    let ghost start = keys_view(out@);
    let ghost vs = views_of(ts@);
    let o = ascending_positions(ts);
    let ghost go = ascending_order(vs);
    proof {
        lemma_order_upto(vs, vs.len() as int);
    }
    let mut i: usize = 0;
    while i < o.len()
        invariant
            i <= o@.len(),
            vs == views_of(ts@),
            go == ascending_order(vs),
            o@.map_values(|x: usize| x as int) == go,
            go.len() == vs.len(),
            forall|q: int| 0 <= q < go.len() ==> 0 <= #[trigger] go[q] < vs.len(),
            keys_view(out@) == start + Seq::new(i as nat, |q: int| (a@, p@, s@, f@, vs[go[q]])),
        decreases o@.len() - i,
    {
        assert(go[i as int] == o@[i as int] as int);
        let k = RecordKey {
            area: a.clone(),
            province: p.clone(),
            substation: s.clone(),
            feeder: f.clone(),
            transformer: ts[o[i]].clone(),
        };
        let ghost prev = out@;
        assert(key_view(k) == (a@, p@, s@, f@, vs[go[i as int]]));
        out.push(k);
        proof {
            assert(out@ == prev.push(k));
            assert(keys_view(out@) =~= keys_view(prev).push(key_view(k)));
            assert(keys_view(out@) =~= start + Seq::new(
                (i + 1) as nat,
                |q: int| (a@, p@, s@, f@, vs[go[q]]),
            ));
        }
        i = i + 1;
    }
}

fn append_substation(out: &mut Vec<RecordKey>, a: &String, p: &String, sb: &SubIds)
    ensures
        keys_view(final(out)@) == keys_view(old(out)@) + substation_records(a@, p@, sub_view(*sb)),
{
    if !sb.readable {
        proof {
            assert(keys_view(out@) =~= keys_view(out@) + Seq::<KeyView>::empty());
        }
        return;
    }
    let ghost start = keys_view(out@);
    let ghost fs = feeders_view(sb.feeders@);
    let fids = ids_of(&sb.feeders);
    proof {
        assert(entry_keys(sb.feeders@) =~= keys_of(fs));
    }
    let o = ascending_positions(&fids);
    let ghost go = ascending_order(keys_of(fs));
    let ghost blocks = Seq::new(
        go.len(),
        |q: int| feeder_records(a@, p@, sb.id@, fs[go[q]].0, fs[go[q]].1),
    );
    proof {
        lemma_order_upto(keys_of(fs), fs.len() as int);
    }
    let mut i: usize = 0;
    while i < o.len()
        invariant
            i <= o@.len(),
            sb.readable,
            fs == feeders_view(sb.feeders@),
            go == ascending_order(keys_of(fs)),
            o@.map_values(|x: usize| x as int) == go,
            go.len() == fs.len(),
            forall|q: int| 0 <= q < go.len() ==> 0 <= #[trigger] go[q] < fs.len(),
            blocks == Seq::new(
                go.len(),
                |q: int| feeder_records(a@, p@, sb.id@, fs[go[q]].0, fs[go[q]].1),
            ),
            keys_view(out@) == start + blocks.take(i as int).flatten(),
        decreases o@.len() - i,
    {
        assert(go[i as int] == o@[i as int] as int);
        let fd = &sb.feeders[o[i]];
        append_feeder(out, a, p, &sb.id, &fd.0, &fd.1);
        proof {
            assert(blocks.take(i + 1) =~= blocks.take(i as int).push(blocks[i as int]));
            blocks.take(i as int).lemma_flatten_push(blocks[i as int]);
            assert(keys_view(out@) =~= start + blocks.take(i + 1).flatten());
        }
        i = i + 1;
    }
    proof {
        assert(blocks.take(i as int) =~= blocks);
    }
}

fn append_province(out: &mut Vec<RecordKey>, a: &String, p: &String, subs: &Vec<SubIds>)
    ensures
        keys_view(final(out)@) == keys_view(old(out)@) + province_records(a@, p@, subs_view(subs@)),
{
    let ghost start = keys_view(out@);
    let ghost ss = subs_view(subs@);
    let mut sids: Vec<String> = Vec::new();
    let mut k: usize = 0;
    while k < subs.len()
        invariant
            k <= subs@.len(),
            ss == subs_view(subs@),
            sids@.len() == k,
            views_of(sids@) == sub_ids(ss).take(k as int),
        decreases subs@.len() - k,
    {
        let ghost prev = sids@;
        let c = subs[k].id.clone();
        assert(c@ == sub_ids(ss)[k as int]);
        sids.push(c);
        proof {
            assert(sids@ == prev.push(c));
            assert forall|q: int| 0 <= q <= k implies #[trigger] views_of(sids@)[q] == sub_ids(
                ss,
            ).take(k + 1)[q] by {
                if q < k {
                    assert(views_of(sids@)[q] == views_of(prev)[q]);
                }
            }
            assert(views_of(sids@) =~= sub_ids(ss).take(k + 1));
        }
        k = k + 1;
    }
    proof {
        assert(sub_ids(ss).take(k as int) =~= sub_ids(ss));
    }
    let o = ascending_positions(&sids);
    let ghost go = ascending_order(sub_ids(ss));
    let ghost blocks = Seq::new(go.len(), |q: int| substation_records(a@, p@, ss[go[q]]));
    proof {
        lemma_order_upto(sub_ids(ss), ss.len() as int);
    }
    let mut i: usize = 0;
    while i < o.len()
        invariant
            i <= o@.len(),
            ss == subs_view(subs@),
            go == ascending_order(sub_ids(ss)),
            o@.map_values(|x: usize| x as int) == go,
            go.len() == ss.len(),
            forall|q: int| 0 <= q < go.len() ==> 0 <= #[trigger] go[q] < ss.len(),
            blocks == Seq::new(go.len(), |q: int| substation_records(a@, p@, ss[go[q]])),
            keys_view(out@) == start + blocks.take(i as int).flatten(),
        decreases o@.len() - i,
    {
        assert(go[i as int] == o@[i as int] as int);
        append_substation(out, a, p, &subs[o[i]]);
        proof {
            assert(blocks.take(i + 1) =~= blocks.take(i as int).push(blocks[i as int]));
            blocks.take(i as int).lemma_flatten_push(blocks[i as int]);
            assert(keys_view(out@) =~= start + blocks.take(i + 1).flatten());
        }
        i = i + 1;
    }
    proof {
        assert(blocks.take(i as int) =~= blocks);
    }
}

fn append_area(out: &mut Vec<RecordKey>, ar: &AreaIds)
    ensures
        keys_view(final(out)@) == keys_view(old(out)@) + area_records(area_view(*ar)),
{
    let ghost start = keys_view(out@);
    let ghost ps = provinces_view(ar.provinces@);
    let pids = ids_of(&ar.provinces);
    proof {
        assert(entry_keys(ar.provinces@) =~= keys_of(ps));
    }
    let o = ascending_positions(&pids);
    let ghost go = ascending_order(keys_of(ps));
    let ghost blocks = Seq::new(go.len(), |q: int| province_records(ar.id@, ps[go[q]].0, ps[go[q]].1));
    proof {
        lemma_order_upto(keys_of(ps), ps.len() as int);
    }
    let mut i: usize = 0;
    while i < o.len()
        invariant
            i <= o@.len(),
            ps == provinces_view(ar.provinces@),
            go == ascending_order(keys_of(ps)),
            o@.map_values(|x: usize| x as int) == go,
            go.len() == ps.len(),
            forall|q: int| 0 <= q < go.len() ==> 0 <= #[trigger] go[q] < ps.len(),
            blocks == Seq::new(
                go.len(),
                |q: int| province_records(ar.id@, ps[go[q]].0, ps[go[q]].1),
            ),
            keys_view(out@) == start + blocks.take(i as int).flatten(),
        decreases o@.len() - i,
    {
        assert(go[i as int] == o@[i as int] as int);
        let pv = &ar.provinces[o[i]];
        append_province(out, &ar.id, &pv.0, &pv.1);
        proof {
            assert(blocks.take(i + 1) =~= blocks.take(i as int).push(blocks[i as int]));
            blocks.take(i as int).lemma_flatten_push(blocks[i as int]);
            assert(keys_view(out@) =~= start + blocks.take(i + 1).flatten());
        }
        i = i + 1;
    }
    proof {
        assert(blocks.take(i as int) =~= blocks);
    }
}

/// The keys of all transformer records of a run, in the order they are made.
pub fn plan_records(aids: &Vec<String>, areas: &Vec<AreaIds>) -> (r: Vec<RecordKey>)
    ensures
        keys_view(r@) == planned(views_of(aids@), areas_view(areas@)),
{
    let ghost av = areas_view(areas@);
    let ghost ids = views_of(aids@);
    let ghost blocks = Seq::new(
        ids.len(),
        |i: int|
            match first_index(area_ids(av), ids[i]) {
                Some(x) => area_records(av[x]),
                None => Seq::<KeyView>::empty(),
            },
    );
    let mut out: Vec<RecordKey> = Vec::new();
    let mut i: usize = 0;
    while i < aids.len()
        invariant
            i <= aids@.len(),
            av == areas_view(areas@),
            ids == views_of(aids@),
            blocks == Seq::new(
                ids.len(),
                |i: int|
                    match first_index(area_ids(av), ids[i]) {
                        Some(x) => area_records(av[x]),
                        None => Seq::<KeyView>::empty(),
                    },
            ),
            keys_view(out@) == blocks.take(i as int).flatten(),
        decreases aids@.len() - i,
    {
        let ghost before = keys_view(out@);
        let mut x: usize = 0;
        while x < areas.len() && areas[x].id != aids[i]
            invariant
                i < aids@.len(),
                x <= areas@.len(),
                av == areas_view(areas@),
                ids == views_of(aids@),
                forall|q: int| 0 <= q < x ==> area_ids(av)[q] != ids[i as int],
            decreases areas@.len() - x,
        {
            x = x + 1;
        }
        proof {
            crate::assoc::lemma_first_index_from_skip(area_ids(av), ids[i as int], x as int);
        }
        if x < areas.len() {
            append_area(&mut out, &areas[x]);
        } else {
            proof {
                assert(before =~= before + Seq::<KeyView>::empty());
            }
        }
        proof {
            assert(blocks.take(i + 1) =~= blocks.take(i as int).push(blocks[i as int]));
            blocks.take(i as int).lemma_flatten_push(blocks[i as int]);
            assert(keys_view(out@) =~= blocks.take(i + 1).flatten());
        }
        i = i + 1;
    }
    proof {
        assert(blocks.take(i as int) =~= blocks);
    }
    out
}

} // verus!

verus! {

proof fn lemma_flatten_split<T>(ss: Seq<Seq<T>>)
    requires
        ss.len() > 0,
    ensures
        ss.flatten() == ss.drop_last().flatten() + ss.last(),
{
    assert(ss =~= ss.drop_last().push(ss.last()));
    ss.drop_last().lemma_flatten_push(ss.last());
}

/// An element is in a concatenation of blocks iff it is in one of them.
pub proof fn lemma_flatten_contains<T>(ss: Seq<Seq<T>>, x: T)
    ensures
        ss.flatten().contains(x) <==> exists|i: int| 0 <= i < ss.len() && #[trigger] ss[i].contains(x),
    decreases ss.len(),
{
    if ss.len() > 0 {
        let d = ss.drop_last();
        lemma_flatten_split(ss);
        lemma_flatten_contains(d, x);
        let f = ss.flatten();
        if f.contains(x) {
            let k = choose|k: int| 0 <= k < f.len() && f[k] == x;
            if k < d.flatten().len() {
                assert(d.flatten()[k] == x);
                let i = choose|i: int| 0 <= i < d.len() && #[trigger] d[i].contains(x);
                assert(ss[i] == d[i]);
            } else {
                assert(ss.last()[k - d.flatten().len()] == x);
                assert(ss[ss.len() - 1].contains(x));
            }
        }
        if exists|i: int| 0 <= i < ss.len() && #[trigger] ss[i].contains(x) {
            let i = choose|i: int| 0 <= i < ss.len() && #[trigger] ss[i].contains(x);
            if i < d.len() {
                assert(d[i] == ss[i]);
                let k = choose|k: int| 0 <= k < d.flatten().len() && d.flatten()[k] == x;
                assert(f[k] == x);
            } else {
                let j = choose|j: int| 0 <= j < ss.last().len() && ss.last()[j] == x;
                assert(f[d.flatten().len() + j] == x);
            }
        }
    } else {
        assert(ss.flatten() =~= Seq::<T>::empty());
    }
}

/// Blocks without repeats, no two of which share an element, concatenate
/// to a sequence without repeats.
pub proof fn lemma_flatten_no_duplicates<T>(ss: Seq<Seq<T>>)
    requires
        forall|i: int| 0 <= i < ss.len() ==> (#[trigger] ss[i]).no_duplicates(),
        forall|i: int, k: int, x: T|
            0 <= i < k < ss.len() && #[trigger] ss[i].contains(x) ==> !#[trigger] ss[k].contains(x),
    ensures
        ss.flatten().no_duplicates(),
    decreases ss.len(),
{
    if ss.len() > 0 {
        let d = ss.drop_last();
        let l = ss.last();
        lemma_flatten_split(ss);
        assert forall|i: int| 0 <= i < d.len() implies (#[trigger] d[i]).no_duplicates() by {
            assert(d[i] == ss[i]);
        }
        assert forall|i: int, k: int, x: T|
            0 <= i < k < d.len() && #[trigger] d[i].contains(x) implies !#[trigger] d[k].contains(
                x,
            ) by {
            assert(d[i] == ss[i] && d[k] == ss[k]);
        }
        lemma_flatten_no_duplicates(d);
        let df = d.flatten();
        let f = ss.flatten();
        assert(ss[ss.len() - 1] == l);
        assert forall|a: int, b: int| 0 <= a < f.len() && 0 <= b < f.len() && a != b implies f[a]
            != f[b] by {
            if a < df.len() && b >= df.len() {
                lemma_flatten_contains(d, f[a]);
                assert(df[a] == f[a]);
                assert(df.contains(f[a]));
                let i = choose|i: int| 0 <= i < d.len() && #[trigger] d[i].contains(f[a]);
                assert(d[i] == ss[i]);
                assert(l[b - df.len()] == f[b]);
                if f[a] == f[b] {
                    assert(ss[ss.len() - 1].contains(f[b]));
                }
            } else if b < df.len() && a >= df.len() {
                lemma_flatten_contains(d, f[b]);
                assert(df[b] == f[b]);
                assert(df.contains(f[b]));
                let i = choose|i: int| 0 <= i < d.len() && #[trigger] d[i].contains(f[b]);
                assert(d[i] == ss[i]);
                assert(l[a - df.len()] == f[a]);
                if f[a] == f[b] {
                    assert(ss[ss.len() - 1].contains(f[a]));
                }
            } else if a < df.len() {
                assert(df[a] == f[a] && df[b] == f[b]);
            } else {
                assert(l[a - df.len()] == f[a] && l[b - df.len()] == f[b]);
            }
        }
    } else {
        assert(ss.flatten() =~= Seq::<T>::empty());
    }
}

/// Two records of the same substation.
pub open spec fn same_substation(x: KeyView, y: KeyView) -> bool {
    x.0 == y.0 && x.1 == y.1 && x.2 == y.2
}

/// The records of each substation stand together, in one block.
pub open spec fn in_substation_blocks(s: Seq<KeyView>) -> bool {
    forall|i: int, j: int, k: int|
        0 <= i < j < k < s.len() && same_substation(#[trigger] s[i], #[trigger] s[k])
            ==> same_substation(s[i], #[trigger] s[j])
}

/// Blocks whose records stand together by substation, no two of which hold
/// records of one substation, concatenate to a sequence whose records stand
/// together by substation.
pub proof fn lemma_flatten_substation_blocks(ss: Seq<Seq<KeyView>>)
    requires
        forall|i: int| 0 <= i < ss.len() ==> in_substation_blocks(#[trigger] ss[i]),
        forall|i: int, k: int, a: int, b: int|
            0 <= i < k < ss.len() && 0 <= a < ss[i].len() && 0 <= b < ss[k].len()
                ==> !same_substation(#[trigger] ss[i][a], #[trigger] ss[k][b]),
    ensures
        in_substation_blocks(ss.flatten()),
    decreases ss.len(),
{
    if ss.len() > 0 {
        let d = ss.drop_last();
        let l = ss.last();
        lemma_flatten_split(ss);
        assert forall|i: int| 0 <= i < d.len() implies in_substation_blocks(#[trigger] d[i]) by {
            assert(d[i] == ss[i]);
        }
        assert forall|i: int, k: int, a: int, b: int|
            0 <= i < k < d.len() && 0 <= a < d[i].len() && 0 <= b < d[k].len() implies !same_substation(
                #[trigger] d[i][a],
                #[trigger] d[k][b],
            ) by {
            assert(d[i] == ss[i] && d[k] == ss[k]);
        }
        lemma_flatten_substation_blocks(d);
        let df = d.flatten();
        let f = ss.flatten();
        assert(ss[ss.len() - 1] == l);
        assert(in_substation_blocks(l));
        assert forall|i: int, j: int, k: int|
            0 <= i < j < k < f.len() && same_substation(#[trigger] f[i], #[trigger] f[k])
                implies same_substation(f[i], #[trigger] f[j]) by {
            let n = df.len() as int;
            if k < n {
                assert(df[i] == f[i] && df[j] == f[j] && df[k] == f[k]);
            } else if i >= n {
                assert(l[i - n] == f[i] && l[j - n] == f[j] && l[k - n] == f[k]);
            } else {
                assert(df[i] == f[i]);
                assert(l[k - n] == f[k]);
                lemma_flatten_contains(d, f[i]);
                assert(df.contains(f[i]));
                let q = choose|q: int| 0 <= q < d.len() && #[trigger] d[q].contains(f[i]);
                let a = choose|a: int| 0 <= a < d[q].len() && d[q][a] == f[i];
                assert(ss[q] == d[q]);
                assert(ss[q][a] == f[i]);
                assert(ss[ss.len() - 1][k - n] == f[k]);
                assert(!same_substation(ss[q][a], ss[ss.len() - 1][k - n]));
            }
        }
    } else {
        assert(ss.flatten() =~= Seq::<KeyView>::empty());
    }
}

} // verus!

verus! {

/// Some feeder of `fs` with id `f` lists transformer `t`.
pub open spec fn feeders_have(fs: Seq<(Seq<char>, Seq<Seq<char>>)>, f: Seq<char>, t: Seq<char>) -> bool {
    exists|j: int| 0 <= j < fs.len() && fs[j].0 == f && #[trigger] fs[j].1.contains(t)
}

/// The substation's data was read and one of its feeders, `f`, lists `t`.
pub open spec fn substation_has(sb: SubView, f: Seq<char>, t: Seq<char>) -> bool {
    sb.1 && feeders_have(sb.2, f, t)
}

/// A substation `s` of the province lists `f` and `t` as above.
pub open spec fn province_has(subs: Seq<SubView>, s: Seq<char>, f: Seq<char>, t: Seq<char>) -> bool {
    exists|j: int| 0 <= j < subs.len() && subs[j].0 == s && #[trigger] substation_has(subs[j], f, t)
}

/// The area holds the transformer that key `k` names, under a readable
/// substation.
pub open spec fn area_has(ar: AreaView, k: KeyView) -> bool {
    k.0 == ar.0 && exists|j: int|
        0 <= j < ar.1.len() && ar.1[j].0 == k.1 && #[trigger] province_has(ar.1[j].1, k.2, k.3, k.4)
}

/// No id repeats among the feeders of a substation, nor among the
/// transformers of a feeder.
pub open spec fn substation_ids_distinct(sb: SubView) -> bool {
    &&& keys_of(sb.2).no_duplicates()
    &&& forall|j: int| 0 <= j < sb.2.len() ==> (#[trigger] sb.2[j]).1.no_duplicates()
}

/// No id repeats among the substations of a province, nor below them.
pub open spec fn province_ids_distinct(subs: Seq<SubView>) -> bool {
    &&& sub_ids(subs).no_duplicates()
    &&& forall|j: int| 0 <= j < subs.len() ==> substation_ids_distinct(#[trigger] subs[j])
}

/// No id repeats among the provinces of an area, nor below them.
pub open spec fn area_ids_distinct(ar: AreaView) -> bool {
    &&& keys_of(ar.1).no_duplicates()
    &&& forall|j: int| 0 <= j < ar.1.len() ==> province_ids_distinct((#[trigger] ar.1[j]).1)
}

proof fn lemma_feeder_records(a: Seq<char>, p: Seq<char>, s: Seq<char>, f: Seq<char>, ts: Seq<Seq<char>>)
    ensures
        forall|i: int|
            0 <= i < feeder_records(a, p, s, f, ts).len() ==> {
                let r = #[trigger] feeder_records(a, p, s, f, ts)[i];
                r.0 == a && r.1 == p && r.2 == s && r.3 == f
            },
        forall|k: KeyView|
            #[trigger] feeder_records(a, p, s, f, ts).contains(k) <==> (k.0 == a && k.1 == p && k.2
                == s && k.3 == f && ts.contains(k.4)),
        ts.no_duplicates() ==> feeder_records(a, p, s, f, ts).no_duplicates(),
{
    let o = ascending_order(ts);
    lemma_order_upto(ts, ts.len() as int);
    let r = feeder_records(a, p, s, f, ts);
    assert forall|k: KeyView| #[trigger] r.contains(k) <==> (k.0 == a && k.1 == p && k.2 == s && k.3
        == f && ts.contains(k.4)) by {
        if r.contains(k) {
            let i = choose|i: int| 0 <= i < r.len() && r[i] == k;
            assert(ts[o[i]] == k.4);
        }
        if k.0 == a && k.1 == p && k.2 == s && k.3 == f && ts.contains(k.4) {
            let x = choose|x: int| 0 <= x < ts.len() && ts[x] == k.4;
            assert(o.contains(x));
            let i = choose|i: int| 0 <= i < o.len() && o[i] == x;
            assert(r[i] == k);
        }
    }
    if ts.no_duplicates() {
        assert forall|i: int, j: int| 0 <= i < r.len() && 0 <= j < r.len() && i != j implies r[i]
            != r[j] by {
            assert(o[i] != o[j]);
        }
    }
}

proof fn lemma_substation_records(a: Seq<char>, p: Seq<char>, sb: SubView)
    ensures
        forall|i: int|
            0 <= i < substation_records(a, p, sb).len() ==> {
                let r = #[trigger] substation_records(a, p, sb)[i];
                r.0 == a && r.1 == p && r.2 == sb.0
            },
        forall|k: KeyView|
            #[trigger] substation_records(a, p, sb).contains(k) <==> (k.0 == a && k.1 == p && k.2
                == sb.0 && substation_has(sb, k.3, k.4)),
        substation_ids_distinct(sb) ==> substation_records(a, p, sb).no_duplicates(),
{
    let r = substation_records(a, p, sb);
    if !sb.1 {
        assert(r =~= Seq::<KeyView>::empty());
        return;
    }
    let fs = sb.2;
    let o = ascending_order(keys_of(fs));
    lemma_order_upto(keys_of(fs), fs.len() as int);
    let bs = Seq::new(o.len(), |q: int| feeder_records(a, p, sb.0, fs[o[q]].0, fs[o[q]].1));
    assert(r == bs.flatten());
    assert forall|q: int| 0 <= q < bs.len() implies #[trigger] bs[q] == feeder_records(
        a,
        p,
        sb.0,
        fs[o[q]].0,
        fs[o[q]].1,
    ) by {}
    assert forall|k: KeyView| #[trigger] r.contains(k) <==> (k.0 == a && k.1 == p && k.2 == sb.0
        && substation_has(sb, k.3, k.4)) by {
        lemma_flatten_contains(bs, k);
        if r.contains(k) {
            let q = choose|q: int| 0 <= q < bs.len() && #[trigger] bs[q].contains(k);
            lemma_feeder_records(a, p, sb.0, fs[o[q]].0, fs[o[q]].1);
            assert(fs[o[q]].1.contains(k.4));
        }
        if k.0 == a && k.1 == p && k.2 == sb.0 && substation_has(sb, k.3, k.4) {
            let j = choose|j: int| 0 <= j < fs.len() && fs[j].0 == k.3 && #[trigger] fs[j].1.contains(
                k.4,
            );
            assert(o.contains(j));
            let q = choose|q: int| 0 <= q < o.len() && o[q] == j;
            lemma_feeder_records(a, p, sb.0, fs[j].0, fs[j].1);
            assert(bs[q].contains(k));
        }
    }
    assert forall|i: int| 0 <= i < r.len() implies {
        let x = #[trigger] r[i];
        x.0 == a && x.1 == p && x.2 == sb.0
    } by {
        assert(r.contains(r[i]));
    }
    if substation_ids_distinct(sb) {
        assert forall|q: int| 0 <= q < bs.len() implies (#[trigger] bs[q]).no_duplicates() by {
            lemma_feeder_records(a, p, sb.0, fs[o[q]].0, fs[o[q]].1);
        }
        assert forall|q: int, w: int, x: KeyView|
            0 <= q < w < bs.len() && #[trigger] bs[q].contains(x) implies !#[trigger] bs[w].contains(
                x,
            ) by {
            lemma_feeder_records(a, p, sb.0, fs[o[q]].0, fs[o[q]].1);
            lemma_feeder_records(a, p, sb.0, fs[o[w]].0, fs[o[w]].1);
            assert(o[q] != o[w]);
            assert(keys_of(fs)[o[q]] != keys_of(fs)[o[w]]);
        }
        lemma_flatten_no_duplicates(bs);
    }
}

} // verus!

verus! {

proof fn lemma_province_records(a: Seq<char>, p: Seq<char>, subs: Seq<SubView>)
    ensures
        forall|i: int|
            0 <= i < province_records(a, p, subs).len() ==> {
                let r = #[trigger] province_records(a, p, subs)[i];
                r.0 == a && r.1 == p
            },
        forall|k: KeyView|
            #[trigger] province_records(a, p, subs).contains(k) <==> (k.0 == a && k.1 == p
                && province_has(subs, k.2, k.3, k.4)),
        province_ids_distinct(subs) ==> province_records(a, p, subs).no_duplicates(),
        sub_ids(subs).no_duplicates() ==> in_substation_blocks(province_records(a, p, subs)),
{
    let r = province_records(a, p, subs);
    let o = ascending_order(sub_ids(subs));
    lemma_order_upto(sub_ids(subs), subs.len() as int);
    let bs = Seq::new(o.len(), |q: int| substation_records(a, p, subs[o[q]]));
    assert(r == bs.flatten());
    assert forall|k: KeyView| #[trigger] r.contains(k) <==> (k.0 == a && k.1 == p && province_has(
        subs,
        k.2,
        k.3,
        k.4,
    )) by {
        lemma_flatten_contains(bs, k);
        if r.contains(k) {
            let q = choose|q: int| 0 <= q < bs.len() && #[trigger] bs[q].contains(k);
            lemma_substation_records(a, p, subs[o[q]]);
            assert(substation_has(subs[o[q]], k.3, k.4));
        }
        if k.0 == a && k.1 == p && province_has(subs, k.2, k.3, k.4) {
            let j = choose|j: int|
                0 <= j < subs.len() && subs[j].0 == k.2 && #[trigger] substation_has(
                    subs[j],
                    k.3,
                    k.4,
                );
            assert(o.contains(j));
            let q = choose|q: int| 0 <= q < o.len() && o[q] == j;
            lemma_substation_records(a, p, subs[j]);
            assert(bs[q].contains(k));
        }
    }
    assert forall|i: int| 0 <= i < r.len() implies {
        let x = #[trigger] r[i];
        x.0 == a && x.1 == p
    } by {
        assert(r.contains(r[i]));
    }
    if province_ids_distinct(subs) {
        assert forall|q: int| 0 <= q < bs.len() implies (#[trigger] bs[q]).no_duplicates() by {
            lemma_substation_records(a, p, subs[o[q]]);
        }
        assert forall|q: int, w: int, x: KeyView|
            0 <= q < w < bs.len() && #[trigger] bs[q].contains(x) implies !#[trigger] bs[w].contains(
                x,
            ) by {
            lemma_substation_records(a, p, subs[o[q]]);
            lemma_substation_records(a, p, subs[o[w]]);
            assert(o[q] != o[w]);
            assert(sub_ids(subs)[o[q]] != sub_ids(subs)[o[w]]);
        }
        lemma_flatten_no_duplicates(bs);
    }
    if sub_ids(subs).no_duplicates() {
        assert forall|q: int| 0 <= q < bs.len() implies in_substation_blocks(#[trigger] bs[q]) by {
            lemma_substation_records(a, p, subs[o[q]]);
            let b = bs[q];
            assert forall|i: int, j: int, k: int|
                0 <= i < j < k < b.len() && same_substation(#[trigger] b[i], #[trigger] b[k])
                    implies same_substation(b[i], #[trigger] b[j]) by {
                assert(b[i].2 == subs[o[q]].0 && b[j].2 == subs[o[q]].0);
            }
        }
        assert forall|q: int, w: int, i: int, j: int|
            0 <= q < w < bs.len() && 0 <= i < bs[q].len() && 0 <= j < bs[w].len()
                implies !same_substation(#[trigger] bs[q][i], #[trigger] bs[w][j]) by {
            lemma_substation_records(a, p, subs[o[q]]);
            lemma_substation_records(a, p, subs[o[w]]);
            assert(bs[q][i].2 == subs[o[q]].0);
            assert(bs[w][j].2 == subs[o[w]].0);
            assert(o[q] != o[w]);
            assert(sub_ids(subs)[o[q]] != sub_ids(subs)[o[w]]);
        }
        lemma_flatten_substation_blocks(bs);
    }
}

/// The records of an area whose ids do not repeat at any level hold every
/// transformer under a readable substation exactly once, and nothing else;
/// the records of each substation stand together.
pub proof fn lemma_area_records(ar: AreaView)
    requires
        area_ids_distinct(ar),
    ensures
        forall|k: KeyView| #[trigger] area_records(ar).contains(k) <==> area_has(ar, k),
        area_records(ar).no_duplicates(),
        in_substation_blocks(area_records(ar)),
{
    let ps = ar.1;
    let r = area_records(ar);
    let o = ascending_order(keys_of(ps));
    lemma_order_upto(keys_of(ps), ps.len() as int);
    let bs = Seq::new(o.len(), |q: int| province_records(ar.0, ps[o[q]].0, ps[o[q]].1));
    assert(r == bs.flatten());
    assert forall|k: KeyView| #[trigger] r.contains(k) <==> area_has(ar, k) by {
        lemma_flatten_contains(bs, k);
        if r.contains(k) {
            let q = choose|q: int| 0 <= q < bs.len() && #[trigger] bs[q].contains(k);
            lemma_province_records(ar.0, ps[o[q]].0, ps[o[q]].1);
            assert(province_has(ps[o[q]].1, k.2, k.3, k.4));
        }
        if area_has(ar, k) {
            let j = choose|j: int|
                0 <= j < ps.len() && ps[j].0 == k.1 && #[trigger] province_has(ps[j].1, k.2, k.3, k.4);
            assert(o.contains(j));
            let q = choose|q: int| 0 <= q < o.len() && o[q] == j;
            lemma_province_records(ar.0, ps[j].0, ps[j].1);
            assert(bs[q].contains(k));
        }
    }
    assert forall|q: int| 0 <= q < bs.len() implies (#[trigger] bs[q]).no_duplicates()
        && in_substation_blocks(bs[q]) by {
        assert(province_ids_distinct(ps[o[q]].1));
        lemma_province_records(ar.0, ps[o[q]].0, ps[o[q]].1);
    }
    assert forall|q: int, w: int, x: KeyView|
        0 <= q < w < bs.len() && #[trigger] bs[q].contains(x) implies !#[trigger] bs[w].contains(x) by {
        lemma_province_records(ar.0, ps[o[q]].0, ps[o[q]].1);
        lemma_province_records(ar.0, ps[o[w]].0, ps[o[w]].1);
        assert(o[q] != o[w]);
        assert(keys_of(ps)[o[q]] != keys_of(ps)[o[w]]);
    }
    lemma_flatten_no_duplicates(bs);
    assert forall|q: int, w: int, i: int, j: int|
        0 <= q < w < bs.len() && 0 <= i < bs[q].len() && 0 <= j < bs[w].len() implies !same_substation(
            #[trigger] bs[q][i],
            #[trigger] bs[w][j],
        ) by {
        lemma_province_records(ar.0, ps[o[q]].0, ps[o[q]].1);
        lemma_province_records(ar.0, ps[o[w]].0, ps[o[w]].1);
        assert(bs[q][i].1 == ps[o[q]].0);
        assert(bs[w][j].1 == ps[o[w]].0);
        assert(o[q] != o[w]);
        assert(keys_of(ps)[o[q]] != keys_of(ps)[o[w]]);
    }
    lemma_flatten_substation_blocks(bs);
}

} // verus!

verus! {

/// Over a run whose area ids do not repeat, and whose areas repeat no id at
/// any level, the records hold every transformer of the named areas that
/// stands under a readable substation exactly once, and nothing else; the
/// records of each substation stand together.
pub proof fn lemma_planned_records(aids: Seq<Seq<char>>, areas: Seq<AreaView>)
    requires
        aids.no_duplicates(),
        forall|x: int| 0 <= x < areas.len() ==> area_ids_distinct(#[trigger] areas[x]),
    ensures
        forall|k: KeyView|
            #[trigger] planned(aids, areas).contains(k) <==> (aids.contains(k.0) && match first_index(
                area_ids(areas),
                k.0,
            ) {
                Some(x) => area_has(areas[x], k),
                None => false,
            }),
        planned(aids, areas).no_duplicates(),
        in_substation_blocks(planned(aids, areas)),
{
    let ids = area_ids(areas);
    let bs = Seq::new(
        aids.len(),
        |i: int|
            match first_index(ids, aids[i]) {
                Some(x) => area_records(areas[x]),
                None => Seq::<KeyView>::empty(),
            },
    );
    let r = planned(aids, areas);
    assert(r == bs.flatten());
    assert forall|i: int| 0 <= i < bs.len() implies {
        &&& (#[trigger] bs[i]).no_duplicates()
        &&& in_substation_blocks(bs[i])
        &&& forall|j: int| 0 <= j < bs[i].len() ==> (#[trigger] bs[i][j]).0 == aids[i]
        &&& forall|k: KeyView|
            bs[i].contains(k) <==> (k.0 == aids[i] && match first_index(ids, aids[i]) {
                Some(x) => area_has(areas[x], k),
                None => false,
            })
    } by {
        crate::assoc::lemma_first_index(ids, aids[i]);
        match first_index(ids, aids[i]) {
            Some(x) => {
                lemma_area_records(areas[x]);
                assert(ids[x] == areas[x].0);
                assert forall|j: int| 0 <= j < bs[i].len() implies (#[trigger] bs[i][j]).0
                    == aids[i] by {
                    assert(bs[i].contains(bs[i][j]));
                }
            },
            None => {
                assert(bs[i] =~= Seq::<KeyView>::empty());
            },
        }
    }
    assert forall|k: KeyView| #[trigger] r.contains(k) <==> (aids.contains(k.0) && match first_index(
        ids,
        k.0,
    ) {
        Some(x) => area_has(areas[x], k),
        None => false,
    }) by {
        lemma_flatten_contains(bs, k);
        if r.contains(k) {
            let i = choose|i: int| 0 <= i < bs.len() && #[trigger] bs[i].contains(k);
            assert(aids[i] == k.0);
        }
        if aids.contains(k.0) && match first_index(ids, k.0) {
            Some(x) => area_has(areas[x], k),
            None => false,
        } {
            let i = choose|i: int| 0 <= i < aids.len() && aids[i] == k.0;
            assert(bs[i].contains(k));
        }
    }
    assert forall|q: int, w: int, x: KeyView|
        0 <= q < w < bs.len() && #[trigger] bs[q].contains(x) implies !#[trigger] bs[w].contains(x) by {
        let a = choose|a: int| 0 <= a < bs[q].len() && bs[q][a] == x;
        assert(bs[q][a].0 == aids[q]);
        if bs[w].contains(x) {
            let b = choose|b: int| 0 <= b < bs[w].len() && bs[w][b] == x;
            assert(bs[w][b].0 == aids[w]);
        }
    }
    lemma_flatten_no_duplicates(bs);
    assert forall|q: int, w: int, i: int, j: int|
        0 <= q < w < bs.len() && 0 <= i < bs[q].len() && 0 <= j < bs[w].len() implies !same_substation(
            #[trigger] bs[q][i],
            #[trigger] bs[w][j],
        ) by {
        assert(bs[q][i].0 == aids[q]);
        assert(bs[w][j].0 == aids[w]);
    }
    lemma_flatten_substation_blocks(bs);
}

} // verus!

verus! {

/// Concatenated blocks keep an order `rel` when each block keeps it within
/// itself and every element of an earlier block stands in `rel` to every
/// element of a later one.
pub proof fn lemma_flatten_ordered<T>(bs: Seq<Seq<T>>, rel: spec_fn(T, T) -> bool)
    requires
        forall|q: int, a: int, b: int|
            0 <= q < bs.len() && 0 <= a < b < bs[q].len() ==> rel(#[trigger] bs[q][a], #[trigger] bs[q][b]),
        forall|q: int, w: int, a: int, b: int|
            0 <= q < w < bs.len() && 0 <= a < bs[q].len() && 0 <= b < bs[w].len() ==> rel(
                #[trigger] bs[q][a],
                #[trigger] bs[w][b],
            ),
    ensures
        forall|i: int, j: int|
            0 <= i < j < bs.flatten().len() ==> rel(#[trigger] bs.flatten()[i], #[trigger] bs.flatten()[j]),
    decreases bs.len(),
{
    if bs.len() > 0 {
        let d = bs.drop_last();
        let l = bs.last();
        lemma_flatten_split(bs);
        assert forall|q: int, a: int, b: int|
            0 <= q < d.len() && 0 <= a < b < d[q].len() implies rel(#[trigger] d[q][a], #[trigger] d[q][b]) by {
            assert(d[q] == bs[q]);
        }
        assert forall|q: int, w: int, a: int, b: int|
            0 <= q < w < d.len() && 0 <= a < d[q].len() && 0 <= b < d[w].len() implies rel(
                #[trigger] d[q][a],
                #[trigger] d[w][b],
            ) by {
            assert(d[q] == bs[q] && d[w] == bs[w]);
        }
        lemma_flatten_ordered(d, rel);
        let df = d.flatten();
        let f = bs.flatten();
        let n = df.len() as int;
        let last = bs.len() - 1;
        assert(bs[last] == l);
        assert forall|i: int, j: int| 0 <= i < j < f.len() implies rel(#[trigger] f[i], #[trigger] f[j]) by {
            if j < n {
                assert(df[i] == f[i] && df[j] == f[j]);
            } else if i >= n {
                assert(bs[last][i - n] == f[i] && bs[last][j - n] == f[j]);
            } else {
                assert(df[i] == f[i]);
                assert(bs[last][j - n] == f[j]);
                lemma_flatten_contains(d, f[i]);
                assert(df.contains(f[i]));
                let q = choose|q: int| 0 <= q < d.len() && #[trigger] d[q].contains(f[i]);
                let a = choose|a: int| 0 <= a < d[q].len() && d[q][a] == f[i];
                assert(bs[q] == d[q]);
                assert(bs[q][a] == f[i]);
            }
        }
    } else {
        assert(bs.flatten() =~= Seq::<T>::empty());
    }
}

/// The transformers of a feeder's records come in ascending id order.
pub proof fn lemma_feeder_records_ascending(
    a: Seq<char>,
    p: Seq<char>,
    s: Seq<char>,
    f: Seq<char>,
    ts: Seq<Seq<char>>,
)
    ensures
        forall|i: int, j: int|
            0 <= i < j < feeder_records(a, p, s, f, ts).len() ==> id_le(
                (#[trigger] feeder_records(a, p, s, f, ts)[i]).4,
                (#[trigger] feeder_records(a, p, s, f, ts)[j]).4,
            ),
{
    lemma_order_upto(ts, ts.len() as int);
}

/// Records `x`, `y` of one substation stand in feeder order: `x`'s feeder
/// id comes no later than `y`'s and, for one feeder, so does its
/// transformer id.
pub open spec fn feeder_order(x: KeyView, y: KeyView) -> bool {
    id_le(x.3, y.3) && (x.3 == y.3 ==> id_le(x.4, y.4))
}

/// Records `x`, `y` of one province stand in substation, then feeder order.
pub open spec fn substation_order(x: KeyView, y: KeyView) -> bool {
    id_le(x.2, y.2) && (x.2 == y.2 ==> feeder_order(x, y))
}

/// Records `x`, `y` of one area stand in province, then substation order.
pub open spec fn province_order(x: KeyView, y: KeyView) -> bool {
    id_le(x.1, y.1) && (x.1 == y.1 ==> substation_order(x, y))
}

proof fn lemma_id_le_refl(x: Seq<char>)
    ensures
        id_le(x, x),
{
    crate::order::lemma_lex_irreflexive(vstd::utf8::encode_utf8(x));
}

/// The feeders of a substation's records come in ascending id order; when
/// its feeder ids do not repeat, the transformers of each feeder follow in
/// ascending id order too.
pub proof fn lemma_substation_records_ascending(a: Seq<char>, p: Seq<char>, sb: SubView)
    ensures
        forall|i: int, j: int|
            0 <= i < j < substation_records(a, p, sb).len() ==> id_le(
                (#[trigger] substation_records(a, p, sb)[i]).3,
                (#[trigger] substation_records(a, p, sb)[j]).3,
            ),
        keys_of(sb.2).no_duplicates() ==> forall|i: int, j: int|
            0 <= i < j < substation_records(a, p, sb).len() ==> feeder_order(
                #[trigger] substation_records(a, p, sb)[i],
                #[trigger] substation_records(a, p, sb)[j],
            ),
{
    let r = substation_records(a, p, sb);
    if !sb.1 {
        assert(r =~= Seq::<KeyView>::empty());
        return;
    }
    let fs = sb.2;
    let o = ascending_order(keys_of(fs));
    lemma_order_upto(keys_of(fs), fs.len() as int);
    let bs = Seq::new(o.len(), |q: int| feeder_records(a, p, sb.0, fs[o[q]].0, fs[o[q]].1));
    assert(r == bs.flatten());
    let rel1 = |x: KeyView, y: KeyView| id_le(x.3, y.3);
    assert forall|q: int, x: int, y: int|
        0 <= q < bs.len() && 0 <= x < y < bs[q].len() implies rel1(#[trigger] bs[q][x], #[trigger] bs[q][y]) by {
        lemma_feeder_records(a, p, sb.0, fs[o[q]].0, fs[o[q]].1);
        assert(bs[q][x].3 == fs[o[q]].0 && bs[q][y].3 == fs[o[q]].0);
        lemma_id_le_refl(fs[o[q]].0);
    }
    assert forall|q: int, w: int, x: int, y: int|
        0 <= q < w < bs.len() && 0 <= x < bs[q].len() && 0 <= y < bs[w].len() implies rel1(
            #[trigger] bs[q][x],
            #[trigger] bs[w][y],
        ) by {
        lemma_feeder_records(a, p, sb.0, fs[o[q]].0, fs[o[q]].1);
        lemma_feeder_records(a, p, sb.0, fs[o[w]].0, fs[o[w]].1);
        assert(bs[q][x].3 == fs[o[q]].0 && bs[w][y].3 == fs[o[w]].0);
        assert(id_le(keys_of(fs)[o[q]], keys_of(fs)[o[w]]));
    }
    lemma_flatten_ordered(bs, rel1);
    assert forall|i: int, j: int| 0 <= i < j < r.len() implies id_le(
        (#[trigger] r[i]).3,
        (#[trigger] r[j]).3,
    ) by {
        assert(rel1(r[i], r[j]));
    }
    if keys_of(fs).no_duplicates() {
        let rel2 = |x: KeyView, y: KeyView| feeder_order(x, y);
        assert forall|q: int, x: int, y: int|
            0 <= q < bs.len() && 0 <= x < y < bs[q].len() implies rel2(
                #[trigger] bs[q][x],
                #[trigger] bs[q][y],
            ) by {
            lemma_feeder_records(a, p, sb.0, fs[o[q]].0, fs[o[q]].1);
            lemma_feeder_records_ascending(a, p, sb.0, fs[o[q]].0, fs[o[q]].1);
            lemma_id_le_refl(fs[o[q]].0);
        }
        assert forall|q: int, w: int, x: int, y: int|
            0 <= q < w < bs.len() && 0 <= x < bs[q].len() && 0 <= y < bs[w].len() implies rel2(
                #[trigger] bs[q][x],
                #[trigger] bs[w][y],
            ) by {
            lemma_feeder_records(a, p, sb.0, fs[o[q]].0, fs[o[q]].1);
            lemma_feeder_records(a, p, sb.0, fs[o[w]].0, fs[o[w]].1);
            assert(bs[q][x].3 == fs[o[q]].0 && bs[w][y].3 == fs[o[w]].0);
            assert(id_le(keys_of(fs)[o[q]], keys_of(fs)[o[w]]));
            assert(o[q] != o[w]);
            assert(keys_of(fs)[o[q]] != keys_of(fs)[o[w]]);
        }
        lemma_flatten_ordered(bs, rel2);
        assert forall|i: int, j: int| 0 <= i < j < r.len() implies feeder_order(
            #[trigger] r[i],
            #[trigger] r[j],
        ) by {
            assert(rel2(r[i], r[j]));
        }
    }
}

} // verus!

verus! {

/// The substations of a province's records come in ascending id order; when
/// no id repeats within the province, records follow substation, then
/// feeder, then transformer order.
pub proof fn lemma_province_records_ascending(a: Seq<char>, p: Seq<char>, subs: Seq<SubView>)
    ensures
        forall|i: int, j: int|
            0 <= i < j < province_records(a, p, subs).len() ==> id_le(
                (#[trigger] province_records(a, p, subs)[i]).2,
                (#[trigger] province_records(a, p, subs)[j]).2,
            ),
        province_ids_distinct(subs) ==> forall|i: int, j: int|
            0 <= i < j < province_records(a, p, subs).len() ==> substation_order(
                #[trigger] province_records(a, p, subs)[i],
                #[trigger] province_records(a, p, subs)[j],
            ),
{
    let r = province_records(a, p, subs);
    let o = ascending_order(sub_ids(subs));
    lemma_order_upto(sub_ids(subs), subs.len() as int);
    let bs = Seq::new(o.len(), |q: int| substation_records(a, p, subs[o[q]]));
    assert(r == bs.flatten());
    let rel1 = |x: KeyView, y: KeyView| id_le(x.2, y.2);
    assert forall|q: int, x: int, y: int|
        0 <= q < bs.len() && 0 <= x < y < bs[q].len() implies rel1(#[trigger] bs[q][x], #[trigger] bs[q][y]) by {
        lemma_substation_records(a, p, subs[o[q]]);
        assert(bs[q][x].2 == subs[o[q]].0 && bs[q][y].2 == subs[o[q]].0);
        lemma_id_le_refl(subs[o[q]].0);
    }
    assert forall|q: int, w: int, x: int, y: int|
        0 <= q < w < bs.len() && 0 <= x < bs[q].len() && 0 <= y < bs[w].len() implies rel1(
            #[trigger] bs[q][x],
            #[trigger] bs[w][y],
        ) by {
        lemma_substation_records(a, p, subs[o[q]]);
        lemma_substation_records(a, p, subs[o[w]]);
        assert(bs[q][x].2 == subs[o[q]].0 && bs[w][y].2 == subs[o[w]].0);
        assert(id_le(sub_ids(subs)[o[q]], sub_ids(subs)[o[w]]));
    }
    lemma_flatten_ordered(bs, rel1);
    assert forall|i: int, j: int| 0 <= i < j < r.len() implies id_le(
        (#[trigger] r[i]).2,
        (#[trigger] r[j]).2,
    ) by {
        assert(rel1(r[i], r[j]));
    }
    if province_ids_distinct(subs) {
        let rel2 = |x: KeyView, y: KeyView| substation_order(x, y);
        assert forall|q: int, x: int, y: int|
            0 <= q < bs.len() && 0 <= x < y < bs[q].len() implies rel2(
                #[trigger] bs[q][x],
                #[trigger] bs[q][y],
            ) by {
            assert(substation_ids_distinct(subs[o[q]]));
            lemma_substation_records(a, p, subs[o[q]]);
            lemma_substation_records_ascending(a, p, subs[o[q]]);
            lemma_id_le_refl(subs[o[q]].0);
        }
        assert forall|q: int, w: int, x: int, y: int|
            0 <= q < w < bs.len() && 0 <= x < bs[q].len() && 0 <= y < bs[w].len() implies rel2(
                #[trigger] bs[q][x],
                #[trigger] bs[w][y],
            ) by {
            lemma_substation_records(a, p, subs[o[q]]);
            lemma_substation_records(a, p, subs[o[w]]);
            assert(bs[q][x].2 == subs[o[q]].0 && bs[w][y].2 == subs[o[w]].0);
            assert(id_le(sub_ids(subs)[o[q]], sub_ids(subs)[o[w]]));
            assert(o[q] != o[w]);
            assert(sub_ids(subs)[o[q]] != sub_ids(subs)[o[w]]);
        }
        lemma_flatten_ordered(bs, rel2);
        assert forall|i: int, j: int| 0 <= i < j < r.len() implies substation_order(
            #[trigger] r[i],
            #[trigger] r[j],
        ) by {
            assert(rel2(r[i], r[j]));
        }
    }
}

/// The provinces of an area's records come in ascending id order; when no
/// id repeats within the area, records follow province, substation, feeder,
/// then transformer order.
pub proof fn lemma_area_records_ascending(ar: AreaView)
    ensures
        forall|i: int, j: int|
            0 <= i < j < area_records(ar).len() ==> id_le(
                (#[trigger] area_records(ar)[i]).1,
                (#[trigger] area_records(ar)[j]).1,
            ),
        area_ids_distinct(ar) ==> forall|i: int, j: int|
            0 <= i < j < area_records(ar).len() ==> province_order(
                #[trigger] area_records(ar)[i],
                #[trigger] area_records(ar)[j],
            ),
{
    let ps = ar.1;
    let r = area_records(ar);
    let o = ascending_order(keys_of(ps));
    lemma_order_upto(keys_of(ps), ps.len() as int);
    let bs = Seq::new(o.len(), |q: int| province_records(ar.0, ps[o[q]].0, ps[o[q]].1));
    assert(r == bs.flatten());
    let rel1 = |x: KeyView, y: KeyView| id_le(x.1, y.1);
    assert forall|q: int, x: int, y: int|
        0 <= q < bs.len() && 0 <= x < y < bs[q].len() implies rel1(#[trigger] bs[q][x], #[trigger] bs[q][y]) by {
        lemma_province_records(ar.0, ps[o[q]].0, ps[o[q]].1);
        assert(bs[q][x].1 == ps[o[q]].0 && bs[q][y].1 == ps[o[q]].0);
        lemma_id_le_refl(ps[o[q]].0);
    }
    assert forall|q: int, w: int, x: int, y: int|
        0 <= q < w < bs.len() && 0 <= x < bs[q].len() && 0 <= y < bs[w].len() implies rel1(
            #[trigger] bs[q][x],
            #[trigger] bs[w][y],
        ) by {
        lemma_province_records(ar.0, ps[o[q]].0, ps[o[q]].1);
        lemma_province_records(ar.0, ps[o[w]].0, ps[o[w]].1);
        assert(bs[q][x].1 == ps[o[q]].0 && bs[w][y].1 == ps[o[w]].0);
        assert(id_le(keys_of(ps)[o[q]], keys_of(ps)[o[w]]));
    }
    lemma_flatten_ordered(bs, rel1);
    assert forall|i: int, j: int| 0 <= i < j < r.len() implies id_le(
        (#[trigger] r[i]).1,
        (#[trigger] r[j]).1,
    ) by {
        assert(rel1(r[i], r[j]));
    }
    if area_ids_distinct(ar) {
        let rel2 = |x: KeyView, y: KeyView| province_order(x, y);
        assert forall|q: int, x: int, y: int|
            0 <= q < bs.len() && 0 <= x < y < bs[q].len() implies rel2(
                #[trigger] bs[q][x],
                #[trigger] bs[q][y],
            ) by {
            assert(province_ids_distinct(ps[o[q]].1));
            lemma_province_records(ar.0, ps[o[q]].0, ps[o[q]].1);
            lemma_province_records_ascending(ar.0, ps[o[q]].0, ps[o[q]].1);
            lemma_id_le_refl(ps[o[q]].0);
        }
        assert forall|q: int, w: int, x: int, y: int|
            0 <= q < w < bs.len() && 0 <= x < bs[q].len() && 0 <= y < bs[w].len() implies rel2(
                #[trigger] bs[q][x],
                #[trigger] bs[w][y],
            ) by {
            lemma_province_records(ar.0, ps[o[q]].0, ps[o[q]].1);
            lemma_province_records(ar.0, ps[o[w]].0, ps[o[w]].1);
            assert(bs[q][x].1 == ps[o[q]].0 && bs[w][y].1 == ps[o[w]].0);
            assert(id_le(keys_of(ps)[o[q]], keys_of(ps)[o[w]]));
            assert(o[q] != o[w]);
            assert(keys_of(ps)[o[q]] != keys_of(ps)[o[w]]);
        }
        lemma_flatten_ordered(bs, rel2);
        assert forall|i: int, j: int| 0 <= i < j < r.len() implies province_order(
            #[trigger] r[i],
            #[trigger] r[j],
        ) by {
            assert(rel2(r[i], r[j]));
        }
    }
}

} // verus!

verus! {

/// A run's records come area by area in the order the area ids are given
/// (ids without repeats); within an area whose ids do not repeat, they
/// follow province, substation, feeder, then transformer order.
pub proof fn lemma_planned_ascending(aids: Seq<Seq<char>>, areas: Seq<AreaView>)
    requires
        aids.no_duplicates(),
    ensures
        forall|i: int, j: int|
            0 <= i < j < planned(aids, areas).len() ==> {
                &&& first_index(aids, (#[trigger] planned(aids, areas)[i]).0) is Some
                &&& first_index(aids, (#[trigger] planned(aids, areas)[j]).0) is Some
                &&& first_index(aids, planned(aids, areas)[i].0)->0 <= first_index(
                    aids,
                    planned(aids, areas)[j].0,
                )->0
            },
        (forall|x: int| 0 <= x < areas.len() ==> area_ids_distinct(#[trigger] areas[x])) ==> forall|
            i: int,
            j: int,
        |
            0 <= i < j < planned(aids, areas).len() && (#[trigger] planned(aids, areas)[i]).0 == (
            #[trigger] planned(aids, areas)[j]).0 ==> province_order(
                planned(aids, areas)[i],
                planned(aids, areas)[j],
            ),
{
    let ids = area_ids(areas);
    let bs = Seq::new(
        aids.len(),
        |i: int|
            match first_index(ids, aids[i]) {
                Some(x) => area_records(areas[x]),
                None => Seq::<KeyView>::empty(),
            },
    );
    let r = planned(aids, areas);
    assert(r == bs.flatten());
    assert forall|q: int| 0 <= q < aids.len() implies #[trigger] first_index(aids, aids[q]) == Some(
        q,
    ) by {
        crate::assoc::lemma_first_index(aids, aids[q]);
    }
    assert forall|q: int, x: int| 0 <= q < bs.len() && 0 <= x < bs[q].len() implies (
    #[trigger] bs[q][x]).0 == aids[q] by {
        crate::assoc::lemma_first_index(ids, aids[q]);
        match first_index(ids, aids[q]) {
            Some(y) => {
                lemma_area_records_area(areas[y]);
                assert(ids[y] == areas[y].0);
                assert(bs[q].contains(bs[q][x]));
            },
            None => {},
        }
    }
    let rel1 = |x: KeyView, y: KeyView|
        first_index(aids, x.0) is Some && first_index(aids, y.0) is Some && first_index(aids, x.0)->0
            <= first_index(aids, y.0)->0;
    assert forall|q: int, x: int, y: int|
        0 <= q < bs.len() && 0 <= x < y < bs[q].len() implies rel1(#[trigger] bs[q][x], #[trigger] bs[q][y]) by {
        assert(bs[q][x].0 == aids[q] && bs[q][y].0 == aids[q]);
        assert(first_index(aids, aids[q]) == Some(q));
    }
    assert forall|q: int, w: int, x: int, y: int|
        0 <= q < w < bs.len() && 0 <= x < bs[q].len() && 0 <= y < bs[w].len() implies rel1(
            #[trigger] bs[q][x],
            #[trigger] bs[w][y],
        ) by {
        assert(bs[q][x].0 == aids[q] && bs[w][y].0 == aids[w]);
        assert(first_index(aids, aids[q]) == Some(q));
        assert(first_index(aids, aids[w]) == Some(w));
    }
    lemma_flatten_ordered(bs, rel1);
    assert forall|i: int, j: int| 0 <= i < j < r.len() implies {
        &&& first_index(aids, (#[trigger] r[i]).0) is Some
        &&& first_index(aids, (#[trigger] r[j]).0) is Some
        &&& first_index(aids, r[i].0)->0 <= first_index(aids, r[j].0)->0
    } by {
        assert(rel1(r[i], r[j]));
    }
    if forall|x: int| 0 <= x < areas.len() ==> area_ids_distinct(#[trigger] areas[x]) {
        let rel2 = |x: KeyView, y: KeyView| x.0 == y.0 ==> province_order(x, y);
        assert forall|q: int, x: int, y: int|
            0 <= q < bs.len() && 0 <= x < y < bs[q].len() implies rel2(
                #[trigger] bs[q][x],
                #[trigger] bs[q][y],
            ) by {
            crate::assoc::lemma_first_index(ids, aids[q]);
            match first_index(ids, aids[q]) {
                Some(z) => {
                    lemma_area_records_ascending(areas[z]);
                },
                None => {},
            }
        }
        assert forall|q: int, w: int, x: int, y: int|
            0 <= q < w < bs.len() && 0 <= x < bs[q].len() && 0 <= y < bs[w].len() implies rel2(
                #[trigger] bs[q][x],
                #[trigger] bs[w][y],
            ) by {
            assert(bs[q][x].0 == aids[q] && bs[w][y].0 == aids[w]);
        }
        lemma_flatten_ordered(bs, rel2);
        assert forall|i: int, j: int|
            0 <= i < j < r.len() && (#[trigger] r[i]).0 == (#[trigger] r[j]).0 implies province_order(
                r[i],
                r[j],
            ) by {
            assert(rel2(r[i], r[j]));
        }
    }
}

} // verus!

verus! {

/// Every record of an area carries the area's id.
pub proof fn lemma_area_records_area(ar: AreaView)
    ensures
        forall|i: int| 0 <= i < area_records(ar).len() ==> (#[trigger] area_records(ar)[i]).0 == ar.0,
{
    let ps = ar.1;
    let r = area_records(ar);
    let o = ascending_order(keys_of(ps));
    lemma_order_upto(keys_of(ps), ps.len() as int);
    let bs = Seq::new(o.len(), |q: int| province_records(ar.0, ps[o[q]].0, ps[o[q]].1));
    assert(r == bs.flatten());
    assert forall|i: int| 0 <= i < r.len() implies (#[trigger] r[i]).0 == ar.0 by {
        assert(r.contains(r[i]));
        lemma_flatten_contains(bs, r[i]);
        let q = choose|q: int| 0 <= q < bs.len() && #[trigger] bs[q].contains(r[i]);
        lemma_province_records(ar.0, ps[o[q]].0, ps[o[q]].1);
        let x = choose|x: int| 0 <= x < bs[q].len() && bs[q][x] == r[i];
        assert(bs[q][x].0 == ar.0);
    }
}

} // verus!
