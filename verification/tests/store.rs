use exa_substreams::bigint::BigInt;
use exa_substreams::error::Error;
use exa_substreams::store::{copy_key, same_key, Delta, Policy, Store};

fn key(segments: &[&str]) -> Vec<String> {
    segments.iter().map(|segment| segment.to_string()).collect()
}

fn amount(text: &str) -> BigInt {
    BigInt::parse(text).unwrap()
}

fn read(store: &Store, segments: &[&str]) -> Option<String> {
    store.get_last(&key(segments)).map(|value| value.to_decimal())
}

fn shown(deltas: &[Delta]) -> Vec<(String, u64, Option<String>, String)> {
    deltas
        .iter()
        .map(|delta| {
            (
                delta.key.join(":"),
                delta.ordinal,
                delta.old_value.as_ref().map(|value| value.to_decimal()),
                delta.new_value.to_decimal(),
            )
        })
        .collect()
}

#[test]
fn an_additive_store_reads_zero_for_a_key_never_seen() {
    let store = Store::new(Policy::Add);
    assert_eq!(read(&store, &["m", "a"]), Some("0".to_string()));
    assert_eq!(store.policy(), Policy::Add);
}

#[test]
fn an_overwriting_store_reads_nothing_for_a_key_never_seen() {
    let store = Store::new(Policy::Overwrite);
    assert_eq!(read(&store, &["m", "a"]), None);
    assert_eq!(store.policy(), Policy::Overwrite);
}

#[test]
fn additions_accumulate_per_key() {
    let mut store = Store::new(Policy::Add);
    assert_eq!(store.apply(1, &key(&["m", "a"]), &amount("-100")), Ok(()));
    assert_eq!(store.apply(1, &key(&["m", "b"]), &amount("100")), Ok(()));
    assert_eq!(store.apply(2, &key(&["m", "b"]), &amount("-40")), Ok(()));
    assert_eq!(store.apply(2, &key(&["m", "a"]), &amount("40")), Ok(()));
    assert_eq!(read(&store, &["m", "a"]), Some("-60".to_string()));
    assert_eq!(read(&store, &["m", "b"]), Some("60".to_string()));
    assert_eq!(read(&store, &["m", "c"]), Some("0".to_string()));
}

#[test]
fn an_overwrite_replaces_the_value() {
    let mut store = Store::new(Policy::Overwrite);
    store.apply(1, &key(&["m", "a"]), &amount("1")).unwrap();
    store.apply(2, &key(&["m", "a"]), &amount("0")).unwrap();
    store.apply(3, &key(&["m", "a"]), &amount("1")).unwrap();
    assert_eq!(read(&store, &["m", "a"]), Some("1".to_string()));
}

#[test]
fn a_repeated_overwrite_changes_nothing() {
    let mut once = Store::new(Policy::Overwrite);
    once.apply(4, &key(&["m", "a"]), &amount("1")).unwrap();
    let mut twice = Store::new(Policy::Overwrite);
    twice.apply(4, &key(&["m", "a"]), &amount("1")).unwrap();
    twice.apply(4, &key(&["m", "a"]), &amount("1")).unwrap();
    assert_eq!(read(&once, &["m", "a"]), read(&twice, &["m", "a"]));
    assert_eq!(read(&twice, &["m", "a"]), Some("1".to_string()));
    let second = &twice.deltas()[1];
    assert_eq!(second.old_value.as_ref().map(|v| v.to_decimal()), Some("1".to_string()));
    assert_eq!(second.new_value.to_decimal(), "1");
}

#[test]
fn every_application_records_a_delta() {
    let mut store = Store::new(Policy::Add);
    store.apply(3, &key(&["m", "aa"]), &amount("500")).unwrap();
    assert_eq!(
        shown(store.deltas()),
        vec![("m:aa".to_string(), 3, Some("0".to_string()), "500".to_string())]
    );
    let mut flags = Store::new(Policy::Overwrite);
    flags.apply(3, &key(&["aa"]), &amount("1")).unwrap();
    assert_eq!(shown(flags.deltas()), vec![("aa".to_string(), 3, None, "1".to_string())]);
}

#[test]
fn deltas_of_one_key_come_out_in_ordinal_order_and_build_on_each_other() {
    let mut store = Store::new(Policy::Add);
    store.apply(5, &key(&["m", "a"]), &amount("10")).unwrap();
    store.apply(6, &key(&["m", "b"]), &amount("1")).unwrap();
    store.apply(9, &key(&["m", "a"]), &amount("-3")).unwrap();
    let deltas = shown(store.deltas());
    assert_eq!(
        deltas,
        vec![
            ("m:a".to_string(), 5, Some("0".to_string()), "10".to_string()),
            ("m:b".to_string(), 6, Some("0".to_string()), "1".to_string()),
            ("m:a".to_string(), 9, Some("10".to_string()), "7".to_string()),
        ]
    );
    assert_eq!(read(&store, &["m", "a"]), Some("7".to_string()));
}

#[test]
fn a_change_below_the_last_ordinal_is_refused() {
    let mut store = Store::new(Policy::Add);
    store.apply(5, &key(&["m", "a"]), &amount("10")).unwrap();
    assert_eq!(store.apply(4, &key(&["m", "a"]), &amount("1")), Err(Error::OrdinalRegression));
    assert_eq!(read(&store, &["m", "a"]), Some("10".to_string()));
    assert_eq!(store.deltas().len(), 1);
    assert_eq!(store.floor(), 5);
    assert_eq!(store.apply(5, &key(&["m", "a"]), &amount("1")), Ok(()));
    assert_eq!(read(&store, &["m", "a"]), Some("11".to_string()));
}

#[test]
fn a_new_block_starts_without_deltas_and_keeps_the_state() {
    let mut store = Store::new(Policy::Add);
    store.apply(7, &key(&["m", "a"]), &amount("10")).unwrap();
    let first = store.take_deltas();
    assert_eq!(first.len(), 1);
    assert!(store.deltas().is_empty());
    assert_eq!(store.floor(), 0);
    assert_eq!(read(&store, &["m", "a"]), Some("10".to_string()));
    assert_eq!(store.apply(1, &key(&["m", "a"]), &amount("5")), Ok(()));
    assert_eq!(
        shown(store.deltas()),
        vec![("m:a".to_string(), 1, Some("10".to_string()), "15".to_string())]
    );
}

#[test]
fn the_state_is_what_the_history_of_deltas_replays_to() {
    let mut store = Store::new(Policy::Add);
    let mut history: Vec<Delta> = Vec::new();
    store.apply(1, &key(&["m", "a"]), &amount("10")).unwrap();
    store.apply(2, &key(&["m", "b"]), &amount("20")).unwrap();
    history.extend(store.take_deltas());
    store.apply(1, &key(&["m", "a"]), &amount("-4")).unwrap();
    history.extend(store.take_deltas());
    let rebuilt = Store::replay(Policy::Add, &history);
    assert_eq!(read(&rebuilt, &["m", "a"]), Some("6".to_string()));
    assert_eq!(read(&rebuilt, &["m", "b"]), Some("20".to_string()));
    assert_eq!(read(&rebuilt, &["m", "a"]), read(&store, &["m", "a"]));
    assert_eq!(read(&rebuilt, &["m", "b"]), read(&store, &["m", "b"]));
    assert!(rebuilt.deltas().is_empty());
}

#[test]
fn replaying_an_alternate_chain_after_a_reorganisation_matches_a_fresh_evaluation() {
    type Change = (u64, [&'static str; 2], &'static str);
    let common: Vec<Vec<Change>> = vec![vec![(1, ["m", "a"], "10"), (2, ["m", "b"], "5")]];
    let canonical: Vec<Vec<Change>> =
        vec![vec![(1, ["m", "a"], "7")], vec![(1, ["m", "c"], "3"), (4, ["m", "a"], "-1")]];
    let alternate: Vec<Vec<Change>> =
        vec![vec![(2, ["m", "b"], "-5")], vec![(1, ["m", "a"], "1"), (1, ["m", "d"], "9")]];
    let run = |store: &mut Store, blocks: &Vec<Vec<Change>>| -> Vec<Vec<Delta>> {
        blocks
            .iter()
            .map(|block| {
                for (ordinal, segments, text) in block {
                    store.apply(*ordinal, &key(segments), &amount(text)).unwrap();
                }
                store.take_deltas()
            })
            .collect()
    };
    let mut live = Store::new(Policy::Add);
    let kept: Vec<Delta> = run(&mut live, &common).into_iter().flatten().collect();
    run(&mut live, &canonical);
    let mut rewound = Store::replay(Policy::Add, &kept);
    run(&mut rewound, &alternate);
    let mut direct = Store::new(Policy::Add);
    run(&mut direct, &common);
    run(&mut direct, &alternate);
    for segments in [["m", "a"], ["m", "b"], ["m", "c"], ["m", "d"]] {
        assert_eq!(read(&rewound, &segments), read(&direct, &segments));
    }
    assert_eq!(read(&rewound, &["m", "a"]), Some("11".to_string()));
    assert_eq!(read(&rewound, &["m", "b"]), Some("0".to_string()));
    assert_eq!(read(&rewound, &["m", "c"]), Some("0".to_string()));
    assert_eq!(read(&rewound, &["m", "d"]), Some("9".to_string()));
}

#[test]
fn keys_are_compared_segment_by_segment() {
    assert!(same_key(&key(&["m", "a"]), &key(&["m", "a"])));
    assert!(!same_key(&key(&["m", "a"]), &key(&["m", "b"])));
    assert!(!same_key(&key(&["m", "a"]), &key(&["m"])));
    assert!(!same_key(&key(&["m:a"]), &key(&["m", "a"])));
    assert_eq!(copy_key(&key(&["m", "a"])), key(&["m", "a"]));
}
