use bbsg_a08::feeder::{feeder_index, feeder_key, index_feeders};

fn strings(v: &[&str]) -> Vec<String> {
    v.iter().map(|s| s.to_string()).collect()
}

fn pair(a: &str, b: &str) -> (String, String) {
    (a.to_string(), b.to_string())
}

#[test]
fn feeder_index_takes_letters_and_digits() {
    let keys = strings(&["KBA-01VB01", "XYZ", "KBA-02WB01"]);
    let idx = feeder_index(&keys);
    assert_eq!(idx.entries, vec![pair("KBA01", "KBA-01VB01"), pair("KBA02", "KBA-02WB01")]);
    assert!(idx.duplicates.is_empty());
}

#[test]
fn feeder_index_first_key_wins() {
    let keys = strings(&["KBA-01VB01", "KBA-01WX", "LPA-11V"]);
    let idx = feeder_index(&keys);
    assert_eq!(idx.entries, vec![pair("KBA01", "KBA-01VB01"), pair("LPA11", "LPA-11V")]);
    assert_eq!(
        idx.duplicates,
        vec![("KBA-01VB01".to_string(), "KBA01".to_string(), "KBA-01WX".to_string())]
    );
    assert_eq!(idx.entries.len() + idx.duplicates.len(), 3);
}

#[test]
fn feeder_index_leftmost_name_and_line_rule() {
    // The leftmost name of a line counts; the rest of the line belongs to it.
    let keys = strings(&["xxAB-CDE-12V-FGH-34W", "ABC-1V", "abc-12V", "PQR-12X"]);
    let idx = feeder_index(&keys);
    assert_eq!(idx.entries, vec![pair("CDE12", "xxAB-CDE-12V-FGH-34W")]);
    // A newline starts a new line, which may hold one more name.
    let keys = strings(&["AAA-11V x\nBBB-22W y"]);
    let idx = feeder_index(&keys);
    assert_eq!(
        idx.entries,
        vec![pair("AAA11", "AAA-11V x\nBBB-22W y"), pair("BBB22", "AAA-11V x\nBBB-22W y")]
    );
}

#[test]
fn feeder_index_name_at_the_very_end() {
    let keys = strings(&["ZZZ-99W"]);
    let idx = feeder_index(&keys);
    assert_eq!(idx.entries, vec![pair("ZZZ99", "ZZZ-99W")]);
}

#[test]
fn index_feeders_from_given_names() {
    let keys = strings(&["k1", "k2", "k3"]);
    let names = vec![
        vec![pair("AAA", "01"), pair("BBB", "02")],
        vec![],
        vec![pair("AAA", "01"), pair("AA", "A01")],
    ];
    let idx = index_feeders(&keys, &names);
    assert_eq!(idx.entries, vec![pair("AAA01", "k1"), pair("BBB02", "k1")]);
    assert_eq!(
        idx.duplicates,
        vec![
            ("k1".to_string(), "AAA01".to_string(), "k3".to_string()),
            ("k1".to_string(), "AAA01".to_string(), "k3".to_string())
        ]
    );
}

#[test]
fn feeder_key_found_or_dash() {
    let entries = vec![pair("KBA01", "KBA-01VB01"), pair("KBA02", "KBA-02WB01")];
    assert_eq!(feeder_key(&entries, &"KBA02".to_string()), "KBA-02WB01");
    assert_eq!(feeder_key(&entries, &"KBA03".to_string()), "-");
    assert_eq!(feeder_key(&vec![], &"KBA01".to_string()), "-");
}

#[test]
fn feeder_ids_are_letters_then_digits() {
    let keys = strings(&["KBA-01VB01", "a PTT-77W", "XX-12V", "QQQ-1AV", "QRS-45WW\nTUV-67V"]);
    let idx = feeder_index(&keys);
    assert_eq!(idx.entries.len(), 4);
    for (id, _) in &idx.entries {
        let c: Vec<char> = id.chars().collect();
        assert_eq!(c.len(), 5);
        assert!(c[..3].iter().all(|x| x.is_ascii_uppercase()));
        assert!(c[3..].iter().all(|x| x.is_ascii_digit()));
    }
}
