use bbsg_a08::order::ascending_positions;
use bbsg_a08::plan::{plan_records, AreaIds, RecordKey, SubIds};

fn s(x: &str) -> String {
    x.to_string()
}

fn sub(id: &str, readable: bool, feeders: &[(&str, &[&str])]) -> SubIds {
    SubIds {
        id: s(id),
        readable,
        feeders: feeders.iter().map(|(f, ts)| (s(f), ts.iter().map(|t| s(t)).collect())).collect(),
    }
}

fn keys(r: &[RecordKey]) -> Vec<String> {
    r.iter()
        .map(|k| format!("{}/{}/{}/{}/{}", k.area, k.province, k.substation, k.feeder, k.transformer))
        .collect()
}

#[test]
fn ascending_positions_stable() {
    let ks = vec![s("b"), s("a"), s("c"), s("a")];
    assert_eq!(ascending_positions(&ks), vec![1, 3, 0, 2]);
    assert!(ascending_positions(&vec![]).is_empty());
}

#[test]
fn plan_records_orders_and_skips() {
    let areas = vec![
        AreaIds {
            id: s("N1"),
            provinces: vec![
                (
                    s("P2"),
                    vec![
                        sub("S9", true, &[("F2", &["T2", "T1"]), ("F1", &["T3"])]),
                        sub("S3", false, &[("F1", &["T9"])]),
                    ],
                ),
                (s("P1"), vec![sub("S5", true, &[("F7", &[]), ("F6", &["T5"])])]),
            ],
        },
        AreaIds { id: s("C2"), provinces: vec![(s("P3"), vec![sub("S1", true, &[("F1", &["T1"])])])] },
    ];
    let aids = vec![s("C2"), s("X0"), s("N1")];
    let r = plan_records(&aids, &areas);
    assert_eq!(
        keys(&r),
        vec![
            "C2/P3/S1/F1/T1",
            "N1/P1/S5/F6/T5",
            "N1/P2/S9/F1/T3",
            "N1/P2/S9/F2/T1",
            "N1/P2/S9/F2/T2",
        ]
    );
}

#[test]
fn plan_records_nothing() {
    assert!(plan_records(&vec![s("A")], &vec![]).is_empty());
    let areas = vec![AreaIds { id: s("A"), provinces: vec![] }];
    assert!(plan_records(&vec![], &areas).is_empty());
    assert!(plan_records(&vec![s("A")], &areas).is_empty());
}

#[test]
fn plan_records_each_transformer_once_in_substation_blocks() {
    let areas = vec![AreaIds {
        id: s("A"),
        provinces: vec![
            (s("P"), vec![sub("S2", true, &[("F", &["T1", "T2"])]), sub("S1", true, &[("G", &["T1"]), ("F", &["T3"])])]),
            (s("Q"), vec![sub("S1", true, &[("F", &["T1"])])]),
        ],
    }];
    let r = keys(&plan_records(&vec![s("A")], &areas));
    let mut sorted = r.clone();
    sorted.sort();
    sorted.dedup();
    assert_eq!(sorted.len(), r.len());
    assert_eq!(r.len(), 5);
    let subs: Vec<String> = r.iter().map(|k| k.rsplitn(3, '/').nth(2).unwrap().to_string()).collect();
    assert_eq!(subs, vec!["A/P/S1", "A/P/S1", "A/P/S2", "A/P/S2", "A/Q/S1"]);
}
