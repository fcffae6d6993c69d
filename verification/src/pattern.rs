//! The shape of a load-profile key that names a feeder.
//!
//! A feeder is named inside a key by three upper-case letters (the
//! substation), a hyphen, two digits (the feeder number) and a `V` or `W`;
//! the rest of the line belongs to the same name. Several names may stand in
//! one key, at most one per line; in each line the leftmost one counts.

use vstd::prelude::*;

verus! {

pub open spec fn is_upper(c: char) -> bool {
    'A' <= c && c <= 'Z'
}

pub open spec fn is_digit(c: char) -> bool {
    '0' <= c && c <= '9'
}

/// A feeder name starts at position `i` of `s`.
pub open spec fn name_at(s: Seq<char>, i: int) -> bool {
    &&& 0 <= i
    &&& i + 7 <= s.len()
    &&& is_upper(s[i])
    &&& is_upper(s[i + 1])
    &&& is_upper(s[i + 2])
    &&& s[i + 3] == '-'
    &&& is_digit(s[i + 4])
    &&& is_digit(s[i + 5])
    &&& (s[i + 6] == 'V' || s[i + 6] == 'W')
}

/// The first position at or after `i` where a name starts.
pub open spec fn first_name_from(s: Seq<char>, i: int) -> Option<int>
    decreases s.len() - i,
{
    if i + 7 > s.len() {
        None
    } else if name_at(s, i) {
        Some(i)
    } else {
        first_name_from(s, i + 1)
    }
}

/// The end of the line that holds position `j`: the next newline, or the end.
pub open spec fn line_end(s: Seq<char>, j: int) -> int
    decreases s.len() - j,
{
    if j >= s.len() {
        s.len() as int
    } else if s[j] == '\n' {
        j
    } else {
        line_end(s, j + 1)
    }
}

pub proof fn lemma_first_name_from_bounds(s: Seq<char>, i: int)
    ensures
        first_name_from(s, i) matches Some(p) ==> i <= p && name_at(s, p),
    decreases s.len() - i,
{
    if i + 7 <= s.len() && !name_at(s, i) {
        lemma_first_name_from_bounds(s, i + 1);
    }
}

pub proof fn lemma_line_end_bounds(s: Seq<char>, j: int)
    requires
        j <= s.len(),
    ensures
        j <= line_end(s, j) <= s.len(),
    decreases s.len() - j,
{
    if j < s.len() && s[j] != '\n' {
        lemma_line_end_bounds(s, j + 1);
    }
}

/// The (letters, digits) of the name at `p`.
pub open spec fn name_parts(s: Seq<char>, p: int) -> (Seq<char>, Seq<char>) {
    (s.subrange(p, p + 3), s.subrange(p + 4, p + 6))
}

/// The names found from position `i` on, leftmost first, without overlap:
/// a name reaches to the end of its line, and the search goes on from there.
pub open spec fn names_from(s: Seq<char>, i: int) -> Seq<(Seq<char>, Seq<char>)>
    decreases s.len() - i,
{
    match first_name_from(s, i) {
        None => Seq::empty(),
        Some(p) => {
            proof {
                lemma_first_name_from_bounds(s, i);
                lemma_line_end_bounds(s, p + 7);
            }
            seq![name_parts(s, p)] + names_from(s, line_end(s, p + 7))
        },
    }
}

/// The (letters, digits) pairs of all feeder names in a key.
pub open spec fn key_names(s: Seq<char>) -> Seq<(Seq<char>, Seq<char>)> {
    names_from(s, 0)
}

/// The view of a list of string pairs.
pub open spec fn pairs_view(v: Seq<(String, String)>) -> Seq<(Seq<char>, Seq<char>)> {
    v.map_values(|p: (String, String)| (p.0@, p.1@))
}

/// Runs the regular expression `([A-Z]{3})-([0-9]{2})[VW].*` of the `regex`
/// crate (`Regex::new`, then `Regex::captures_iter`) over `key`, and returns
/// capture groups 1 and 2 of each match. The contract restates, for this one
/// pattern, the documented semantics of `captures_iter`: successive
/// non-overlapping leftmost-first matches, where `.` matches any character
/// but `\n` and `.*` is greedy. The pattern is valid, so `Regex::new` does not
/// fail.
#[verifier::external_body]
pub(crate) fn regex_feeder_names(key: &str) -> (names: Vec<(String, String)>)
    ensures
        pairs_view(names@) == key_names(key@),
{
    let re = regex::Regex::new(r"([A-Z]{3})-([0-9]{2})[VW].*").unwrap();
    re.captures_iter(key).map(|c| (c[1].to_string(), c[2].to_string())).collect()
}

} // verus!

verus! {

/// Every name found is three upper-case letters and two digits, both taken
/// from the key.
pub proof fn lemma_names_shape(s: Seq<char>, i: int)
    ensures
        forall|t: int|
            0 <= t < names_from(s, i).len() ==> {
                let c = #[trigger] names_from(s, i)[t];
                &&& c.0.len() == 3
                &&& c.1.len() == 2
                &&& is_upper(c.0[0]) && is_upper(c.0[1]) && is_upper(c.0[2])
                &&& is_digit(c.1[0]) && is_digit(c.1[1])
                &&& exists|p: int| 0 <= p && p + 7 <= s.len() && c == name_parts(s, p)
            },
    decreases s.len() - i,
{
    lemma_first_name_from_bounds(s, i);
    match first_name_from(s, i) {
        None => {},
        Some(p) => {
            lemma_line_end_bounds(s, p + 7);
            lemma_names_shape(s, line_end(s, p + 7));
            let rest = names_from(s, line_end(s, p + 7));
            let all = names_from(s, i);
            assert(all == seq![name_parts(s, p)] + rest);
            assert forall|t: int| 0 <= t < all.len() implies {
                let c = #[trigger] all[t];
                &&& c.0.len() == 3
                &&& c.1.len() == 2
                &&& is_upper(c.0[0]) && is_upper(c.0[1]) && is_upper(c.0[2])
                &&& is_digit(c.1[0]) && is_digit(c.1[1])
                &&& exists|q: int| 0 <= q && q + 7 <= s.len() && c == name_parts(s, q)
            } by {
                if t == 0 {
                    assert(all[0] == name_parts(s, p));
                } else {
                    assert(all[t] == rest[t - 1]);
                }
            }
        },
    }
}

} // verus!
