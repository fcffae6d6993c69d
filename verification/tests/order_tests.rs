use bbsg_a08::order::{id_less, sort_ids};

fn strings(v: &[&str]) -> Vec<String> {
    v.iter().map(|s| s.to_string()).collect()
}

#[test]
fn sort_ids_orders_like_str() {
    let mut ids = strings(&["N2", "C1", "NE3", "S", "C1", "", "b", "B"]);
    let mut expected = ids.clone();
    expected.sort();
    sort_ids(&mut ids);
    assert_eq!(ids, expected);
    assert_eq!(ids, strings(&["", "B", "C1", "C1", "N2", "NE3", "S", "b"]));
}

#[test]
fn sort_ids_empty_and_single() {
    let mut none: Vec<String> = vec![];
    sort_ids(&mut none);
    assert!(none.is_empty());
    let mut one = strings(&["KBA"]);
    sort_ids(&mut one);
    assert_eq!(one, strings(&["KBA"]));
}

#[test]
fn sort_ids_non_ascii_follows_bytes() {
    let mut ids = strings(&["é", "z", "a", "ab", "aa"]);
    let mut expected = ids.clone();
    expected.sort();
    sort_ids(&mut ids);
    assert_eq!(ids, expected);
}

#[test]
fn id_less_is_strict() {
    let a = "ABC".to_string();
    let b = "ABD".to_string();
    let p = "AB".to_string();
    assert!(id_less(&a, &b));
    assert!(!id_less(&b, &a));
    assert!(!id_less(&a, &a));
    assert!(id_less(&p, &a));
    assert!(!id_less(&a, &p));
}

#[test]
fn sort_ids_same_order_from_any_arrangement() {
    let mut a = strings(&["S3", "S1", "S2", "S1"]);
    let mut b = strings(&["S1", "S2", "S1", "S3"]);
    sort_ids(&mut a);
    sort_ids(&mut b);
    assert_eq!(a, b);
    let mut c = a.clone();
    sort_ids(&mut c);
    assert_eq!(c, a);
}
