//! Classification rules applied to one distribution transformer: the zone
//! class of the land it stands on, who owns it, which office serves it, and
//! the phase of each meter it supplies.

use vstd::prelude::*;
use vstd::string::*;

verus! {

/// The level of one zone code: 5 for "21", "22", "24"; 4 for "11" to "14";
/// 3 for "23", "25", "31"; 2 for "41", "42"; 0 for any other code.
pub open spec fn zone_level_spec(c: Seq<char>) -> u32 {
    if c == seq!['2', '1'] || c == seq!['2', '2'] || c == seq!['2', '4'] {
        5
    } else if c == seq!['1', '1'] || c == seq!['1', '2'] || c == seq!['1', '3'] || c == seq![
        '1',
        '4',
    ] {
        4
    } else if c == seq!['2', '3'] || c == seq!['2', '5'] || c == seq!['3', '1'] {
        3
    } else if c == seq!['4', '1'] || c == seq!['4', '2'] {
        2
    } else {
        0
    }
}

/// The zone class of a transformer: the highest level among its zone codes,
/// and at least 1.
pub open spec fn zone_class_spec(codes: Seq<Seq<char>>) -> u32
    decreases codes.len(),
{
    if codes.len() == 0 {
        1
    } else {
        let rest = zone_class_spec(codes.drop_last());
        let lv = zone_level_spec(codes.last());
        if lv > rest {
            lv
        } else {
            rest
        }
    }
}

/// The level of one zone code.
pub fn zone_level(code: &str) -> (lv: u32)
    ensures
        lv == zone_level_spec(code@),
{
    if code.unicode_len() != 2 {
        return 0;
    }
    let a = code.get_char(0);
    let b = code.get_char(1);
    proof {
        assert(code@ =~= seq![a, b]);
    }
    if a == '2' && (b == '1' || b == '2' || b == '4') {
        5
    } else if a == '1' && (b == '1' || b == '2' || b == '3' || b == '4') {
        4
    } else if (a == '2' && (b == '3' || b == '5')) || (a == '3' && b == '1') {
        3
    } else if a == '4' && (b == '1' || b == '2') {
        2
    } else {
        0
    }
}

/// The zone class of a transformer from the codes of the zones it lies in.
pub fn zone_class(codes: &Vec<String>) -> (c: u32)
    ensures
        c == zone_class_spec(codes@.map_values(|s: String| s@)),
{
    let ghost cs = codes@.map_values(|s: String| s@);
    let mut c: u32 = 1;
    let mut i: usize = 0;
    while i < codes.len()
        invariant
            i <= codes@.len(),
            cs == codes@.map_values(|s: String| s@),
            c == zone_class_spec(cs.take(i as int)),
        decreases codes@.len() - i,
    {
        let lv = zone_level(codes[i].as_str());
        proof {
            assert(cs.take(i + 1).drop_last() =~= cs.take(i as int));
        }
        if lv > c {
            c = lv;
        }
        i = i + 1;
    }
    proof {
        assert(cs.take(i as int) =~= cs);
    }
    c
}

/// The owner code of a transformer owned by the utility.
pub open spec fn utility_owned_spec(own: Seq<char>) -> bool {
    own == seq!['P']
}

/// Whether the transformer is owned by the utility (owner code `"P"`); the
/// others belong to customers.
pub fn utility_owned(own: &str) -> (r: bool)
    ensures
        r == utility_owned_spec(own@),
{
    if own.unicode_len() != 1 {
        return false;
    }
    let c = own.get_char(0);
    proof {
        assert(own@ =~= seq![c]);
    }
    c == 'P'
}

/// The phase a meter is connected to.
#[derive(PartialEq, Eq, Structural, Clone, Copy, Debug)]
pub enum Phase {
    A,
    B,
    C,
    /// Any other phase code, or none: a three-phase meter.
    Three,
}

pub open spec fn phase_spec(code: Option<Seq<char>>) -> Phase {
    match code {
        Some(c) => if c == seq!['A'] {
            Phase::A
        } else if c == seq!['B'] {
            Phase::B
        } else if c == seq!['C'] {
            Phase::C
        } else {
            Phase::Three
        },
        None => Phase::Three,
    }
}

pub open spec fn opt_view(o: Option<String>) -> Option<Seq<char>> {
    match o {
        Some(s) => Some(s@),
        None => None,
    }
}

/// The phase of a meter from its phase code.
pub fn phase_of(code: &Option<String>) -> (p: Phase)
    ensures
        p == phase_spec(opt_view(*code)),
{
    match code {
        None => Phase::Three,
        Some(s) => {
            if s.as_str().unicode_len() != 1 {
                return Phase::Three;
            }
            let c = s.as_str().get_char(0);
            proof {
                assert(s@ =~= seq![c]);
            }
            if c == 'A' {
                Phase::A
            } else if c == 'B' {
                Phase::B
            } else if c == 'C' {
                Phase::C
            } else {
                Phase::Three
            }
        },
    }
}

/// The number of single-phase meters among the phase codes.
pub open spec fn single_phase_count(codes: Seq<Option<Seq<char>>>) -> nat
    decreases codes.len(),
{
    if codes.len() == 0 {
        0
    } else {
        single_phase_count(codes.drop_last()) + if phase_spec(codes.last()) == Phase::Three {
            0nat
        } else {
            1nat
        }
    }
}

/// Counts the single-phase and the three-phase meters of a transformer; only
/// meters of utility-owned transformers are counted.
pub fn count_meter_phases(own: &str, codes: &Vec<Option<String>>) -> (r: (usize, usize))
    ensures
        ({
            let cs = codes@.map_values(|o: Option<String>| opt_view(o));
            if utility_owned_spec(own@) {
                &&& r.0 == single_phase_count(cs)
                &&& r.1 == cs.len() - single_phase_count(cs)
                &&& r.0 == cs.filter(
                    |o: Option<Seq<char>>|
                        o == Some(seq!['A']) || o == Some(seq!['B']) || o == Some(seq!['C']),
                ).len()
            } else {
                r == (0usize, 0usize)
            }
        }),
{
    let ghost cs = codes@.map_values(|o: Option<String>| opt_view(o));
    if !utility_owned(own) {
        return (0, 0);
    }
    let mut one: usize = 0;
    let mut three: usize = 0;
    let mut i: usize = 0;
    while i < codes.len()
        invariant
            i <= codes@.len(),
            cs == codes@.map_values(|o: Option<String>| opt_view(o)),
            one == single_phase_count(cs.take(i as int)),
            one + three == i,
        decreases codes@.len() - i,
    {
        let p = phase_of(&codes[i]);
        proof {
            assert(cs.take(i + 1).drop_last() =~= cs.take(i as int));
        }
        match p {
            Phase::Three => {
                three = three + 1;
            },
            _ => {
                one = one + 1;
            },
        }
        i = i + 1;
    }
    proof {
        assert(cs.take(i as int) =~= cs);
        lemma_single_phase_count(cs);
    }
    (one, three)
}

/// The short name and the code of the office that serves a transformer:
/// those of its first office, `"-"` for each one missing, and `"-"` for both
/// when it has no office.
pub fn office_names(first: &Option<(Option<String>, Option<String>)>) -> (r: (String, String))
    ensures
        r.0@ == (match first {
            Some((Some(n), _)) => n@,
            _ => seq!['-'],
        }),
        r.1@ == (match first {
            Some((_, Some(c))) => c@,
            _ => seq!['-'],
        }),
{
    proof {
        reveal_strlit("-");
    }
    match first {
        None => (String::from_str("-"), String::from_str("-")),
        Some((name, code)) => {
            let n = match name {
                Some(n) => n.clone(),
                None => String::from_str("-"),
            };
            let c = match code {
                Some(c) => c.clone(),
                None => String::from_str("-"),
            };
            (n, c)
        },
    }
}

} // verus!

verus! {

/// The zone class lies between 1 and 5, is no lower than the level of any
/// of the codes, and is 1 or the level of one of them.
pub proof fn lemma_zone_class_bounds(codes: Seq<Seq<char>>)
    ensures
        1 <= zone_class_spec(codes) <= 5,
        forall|i: int| 0 <= i < codes.len() ==> zone_level_spec(#[trigger] codes[i]) <= zone_class_spec(codes),
        zone_class_spec(codes) == 1 || exists|i: int|
            0 <= i < codes.len() && zone_level_spec(#[trigger] codes[i]) == zone_class_spec(codes),
    decreases codes.len(),
{
    if codes.len() > 0 {
        let rest = codes.drop_last();
        lemma_zone_class_bounds(rest);
        assert forall|i: int| 0 <= i < codes.len() implies zone_level_spec(#[trigger] codes[i])
            <= zone_class_spec(codes) by {
            if i < rest.len() {
                assert(codes[i] == rest[i]);
            }
        }
        if zone_class_spec(codes) != 1 {
            if zone_level_spec(codes.last()) > zone_class_spec(rest) {
                assert(zone_level_spec(codes[codes.len() - 1]) == zone_class_spec(codes));
            } else {
                let i = choose|i: int|
                    0 <= i < rest.len() && zone_level_spec(#[trigger] rest[i]) == zone_class_spec(rest);
                assert(codes[i] == rest[i]);
            }
        }
    }
}

} // verus!

verus! {

/// The identifying labels of one transformer record.
pub struct TransformerLabels {
    pub area: String,
    pub province: String,
    pub substation: String,
    pub feeder: String,
    pub owner: String,
    pub asset_no: String,
    pub office: String,
    pub office_code: String,
    /// The positions of all offices that serve the transformer.
    pub offices: Vec<usize>,
}

/// Labels a transformer record with the ids of the area, province,
/// substation and feeder it hangs under, its owner code, its asset number
/// (empty when it has none), the offices that serve it, and the names of
/// the first of them (see `office_names`).
pub fn transformer_labels(
    area: &String,
    province: &String,
    substation: &String,
    feeder: &String,
    owner: &String,
    asset_no: &Option<String>,
    offices: &Vec<usize>,
    first_office: &Option<(Option<String>, Option<String>)>,
) -> (r: TransformerLabels)
    ensures
        r.area@ == area@,
        r.province@ == province@,
        r.substation@ == substation@,
        r.feeder@ == feeder@,
        r.owner@ == owner@,
        r.offices@ == offices@,
        r.asset_no@ == (match asset_no {
            Some(a) => a@,
            None => Seq::<char>::empty(),
        }),
        r.office@ == (match first_office {
            Some((Some(n), _)) => n@,
            _ => seq!['-'],
        }),
        r.office_code@ == (match first_office {
            Some((_, Some(c))) => c@,
            _ => seq!['-'],
        }),
{
    let (office, office_code) = office_names(first_office);
    let asset = match asset_no {
        Some(a) => a.clone(),
        None => String::new(),
    };
    TransformerLabels {
        area: area.clone(),
        province: province.clone(),
        substation: substation.clone(),
        feeder: feeder.clone(),
        owner: owner.clone(),
        asset_no: asset,
        office,
        office_code,
        offices: offices.clone(),
    }
}

} // verus!

verus! {

/// The codes that give a zone a level, and only those: "21", "22", "24"
/// give 5; "11" to "14" give 4; "23", "25", "31" give 3; "41", "42" give 2;
/// every other code gives 0. So a transformer whose zones carry none of the
/// listed codes is of class 1.
pub proof fn lemma_zone_level_table(c: Seq<char>, codes: Seq<Seq<char>>)
    ensures
        c =~= seq!['2', '1'] || c =~= seq!['2', '2'] || c =~= seq!['2', '4'] ==> zone_level_spec(c)
            == 5,
        c =~= seq!['1', '1'] || c =~= seq!['1', '2'] || c =~= seq!['1', '3'] || c =~= seq!['1', '4']
            ==> zone_level_spec(c) == 4,
        c =~= seq!['2', '3'] || c =~= seq!['2', '5'] || c =~= seq!['3', '1'] ==> zone_level_spec(c)
            == 3,
        c =~= seq!['4', '1'] || c =~= seq!['4', '2'] ==> zone_level_spec(c) == 2,
        zone_level_spec(c) != 0 ==> c.len() == 2 && (c[0] == '1' && ('1' <= c[1] <= '4') || c[0]
            == '2' && ('1' <= c[1] <= '5') || c[0] == '3' && c[1] == '1' || c[0] == '4' && (c[1]
            == '1' || c[1] == '2')),
        (forall|i: int|
            0 <= i < codes.len() ==> !(#[trigger] codes[i].len() == 2 && (codes[i][0] == '1' && (
            '1' <= codes[i][1] <= '4') || codes[i][0] == '2' && ('1' <= codes[i][1] <= '5')
            || codes[i][0] == '3' && codes[i][1] == '1' || codes[i][0] == '4' && (codes[i][1]
            == '1' || codes[i][1] == '2')))) ==> zone_class_spec(codes) == 1,
{
    lemma_zone_class_bounds(codes);
    if forall|i: int|
        0 <= i < codes.len() ==> !(#[trigger] codes[i].len() == 2 && (codes[i][0] == '1' && (
        '1' <= codes[i][1] <= '4') || codes[i][0] == '2' && ('1' <= codes[i][1] <= '5')
        || codes[i][0] == '3' && codes[i][1] == '1' || codes[i][0] == '4' && (codes[i][1] == '1'
        || codes[i][1] == '2'))) {
        if zone_class_spec(codes) != 1 {
            let i = choose|i: int|
                0 <= i < codes.len() && zone_level_spec(#[trigger] codes[i]) == zone_class_spec(
                    codes,
                );
            let d = codes[i];
            if d.len() == 2 {
                assert(d == seq![d[0], d[1]]);
            }
        }
    }
    if c.len() == 2 {
        assert(c == seq![c[0], c[1]]);
    }
}

/// Exactly the meters whose phase code is "A", "B" or "C" are single-phase:
/// the single-phase count is the number of such codes, and every other code
/// (a longer one such as "ABC", an empty one, or none) is a three-phase meter.
pub proof fn lemma_single_phase_count(cs: Seq<Option<Seq<char>>>)
    ensures
        single_phase_count(cs) == cs.filter(
            |o: Option<Seq<char>>|
                o == Some(seq!['A']) || o == Some(seq!['B']) || o == Some(seq!['C']),
        ).len(),
        single_phase_count(cs) <= cs.len(),
    decreases cs.len(),
{
    let pred = |o: Option<Seq<char>>|
        o == Some(seq!['A']) || o == Some(seq!['B']) || o == Some(seq!['C']);
    if cs.len() > 0 {
        let d = cs.drop_last();
        lemma_single_phase_count(d);
        assert(cs == d.push(cs.last()));
        d.lemma_filter_push(cs.last(), pred);
        let l = cs.last();
        match l {
            Some(c) => {
                if c.len() == 1 {
                    assert(c == seq![c[0]]);
                }
            },
            None => {},
        }
    } else {
        assert(cs.filter(pred) =~= Seq::<Option<Seq<char>>>::empty());
    }
}

} // verus!

verus! {

/// A meter is on phase A, B or C exactly when its code is that one letter;
/// every other code, and a missing one, means a three-phase meter. A
/// transformer is the utility's exactly when its owner code is the single
/// letter `P`.
pub proof fn lemma_phase_and_owner_codes(o: Option<Seq<char>>, own: Seq<char>)
    ensures
        phase_spec(o) == Phase::A <==> (o matches Some(c) && c.len() == 1 && c[0] == 'A'),
        phase_spec(o) == Phase::B <==> (o matches Some(c) && c.len() == 1 && c[0] == 'B'),
        phase_spec(o) == Phase::C <==> (o matches Some(c) && c.len() == 1 && c[0] == 'C'),
        utility_owned_spec(own) <==> (own.len() == 1 && own[0] == 'P'),
{
    if let Some(c) = o {
        if c.len() == 1 {
            assert(c == seq![c[0]]);
        }
    }
    if own.len() == 1 {
        assert(own == seq![own[0]]);
    }
}

} // verus!
