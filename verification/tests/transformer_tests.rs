use bbsg_a08::transformer::{
    count_meter_phases, office_names, phase_of, transformer_labels, utility_owned, zone_class,
    zone_level, Phase,
};

fn strings(v: &[&str]) -> Vec<String> {
    v.iter().map(|s| s.to_string()).collect()
}

#[test]
fn zone_levels_of_each_code() {
    for c in ["21", "22", "24"] {
        assert_eq!(zone_level(c), 5);
    }
    for c in ["11", "12", "13", "14"] {
        assert_eq!(zone_level(c), 4);
    }
    for c in ["23", "25", "31"] {
        assert_eq!(zone_level(c), 3);
    }
    for c in ["41", "42"] {
        assert_eq!(zone_level(c), 2);
    }
    for c in ["", "2", "210", "15", "43", "32", "ab"] {
        assert_eq!(zone_level(c), 0);
    }
}

#[test]
fn zone_class_is_max_and_at_least_one() {
    assert_eq!(zone_class(&vec![]), 1);
    assert_eq!(zone_class(&strings(&["99"])), 1);
    assert_eq!(zone_class(&strings(&["41", "23"])), 3);
    assert_eq!(zone_class(&strings(&["41", "11", "31"])), 4);
    assert_eq!(zone_class(&strings(&["42", "24", "12"])), 5);
}

#[test]
fn owner_code_p_is_utility() {
    assert!(utility_owned("P"));
    assert!(!utility_owned("C"));
    assert!(!utility_owned(""));
    assert!(!utility_owned("PP"));
}

#[test]
fn phases_of_codes() {
    assert_eq!(phase_of(&Some("A".to_string())), Phase::A);
    assert_eq!(phase_of(&Some("B".to_string())), Phase::B);
    assert_eq!(phase_of(&Some("C".to_string())), Phase::C);
    assert_eq!(phase_of(&Some("ABC".to_string())), Phase::Three);
    assert_eq!(phase_of(&Some("".to_string())), Phase::Three);
    assert_eq!(phase_of(&Some("a".to_string())), Phase::Three);
    assert_eq!(phase_of(&None), Phase::Three);
}

#[test]
fn meter_phase_counts() {
    let codes = vec![
        Some("A".to_string()),
        None,
        Some("C".to_string()),
        Some("3".to_string()),
        Some("B".to_string()),
    ];
    assert_eq!(count_meter_phases("P", &codes), (3, 2));
    assert_eq!(count_meter_phases("C", &codes), (0, 0));
    assert_eq!(count_meter_phases("P", &vec![]), (0, 0));
    let (one, three) = count_meter_phases("P", &codes);
    assert_eq!(one + three, codes.len());
}

#[test]
fn office_name_defaults() {
    assert_eq!(office_names(&None), ("-".to_string(), "-".to_string()));
    assert_eq!(
        office_names(&Some((Some("KBA".to_string()), Some("E123".to_string())))),
        ("KBA".to_string(), "E123".to_string())
    );
    assert_eq!(
        office_names(&Some((None, Some("E123".to_string())))),
        ("-".to_string(), "E123".to_string())
    );
    assert_eq!(
        office_names(&Some((Some("KBA".to_string()), None))),
        ("KBA".to_string(), "-".to_string())
    );
}

#[test]
fn labels_of_a_transformer() {
    let s = |x: &str| x.to_string();
    let l = transformer_labels(
        &s("N1"),
        &s("KBI"),
        &s("KBA"),
        &s("KBA01"),
        &s("P"),
        &None,
        &vec![4, 1],
        &Some((Some(s("KB")), None)),
    );
    assert_eq!(
        (l.area, l.province, l.substation, l.feeder, l.owner, l.asset_no, l.office, l.office_code),
        (s("N1"), s("KBI"), s("KBA"), s("KBA01"), s("P"), s(""), s("KB"), s("-"))
    );
    assert_eq!(l.offices, vec![4, 1]);
    let l = transformer_labels(
        &s("a"),
        &s("b"),
        &s("c"),
        &s("d"),
        &s("C"),
        &Some(s("T-77")),
        &vec![],
        &None,
    );
    assert_eq!((l.asset_no, l.office, l.office_code), (s("T-77"), s("-"), s("-")));
    assert!(l.offices.is_empty());
}
