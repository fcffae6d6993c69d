use bbsg_a08::group::group_by_key;

fn strings(v: &[&str]) -> Vec<String> {
    v.iter().map(|s| s.to_string()).collect()
}

#[test]
fn groups_in_first_seen_order() {
    let keys = strings(&["S2", "S1", "S2", "S3", "S1", "S2"]);
    let g = group_by_key(&keys);
    assert_eq!(
        g,
        vec![
            ("S2".to_string(), vec![0, 2, 5]),
            ("S1".to_string(), vec![1, 4]),
            ("S3".to_string(), vec![3])
        ]
    );
}

#[test]
fn groups_partition_positions() {
    let keys = strings(&["a", "b", "a", "a", "c", "b"]);
    let g = group_by_key(&keys);
    let mut seen = vec![0; keys.len()];
    for (k, idx) in &g {
        assert!(!idx.is_empty());
        for w in idx.windows(2) {
            assert!(w[0] < w[1]);
        }
        for &i in idx {
            assert_eq!(&keys[i], k);
            seen[i] += 1;
        }
    }
    assert!(seen.iter().all(|&c| c == 1));
}

#[test]
fn groups_of_nothing() {
    assert!(group_by_key(&vec![]).is_empty());
}
