use exa_substreams::accumulate::{BlockDeltas, Stores};
use exa_substreams::bigint::BigInt;
use exa_substreams::changeset::{db_out, emit};
use exa_substreams::decoder::FieldSource::{Topic, Word};
use exa_substreams::decoder::{Decoder, DecoderTable, DomainEvent, EventKind};
use exa_substreams::encoding::to_hex;
use exa_substreams::error::Error;
use exa_substreams::pipeline::Pipeline;
use exa_substreams::registry::{Registry, Role};
use exa_substreams::store::Delta;
use exa_substreams::types::{Block, Clock, LogEntry, Plugin, Plugins};
use std::collections::BTreeMap;
use substreams_database_change::pb::sf::substreams::sink::database::v1::table_change::{
    Operation, PrimaryKey,
};
use substreams_database_change::pb::sf::substreams::sink::database::v1::DatabaseChanges;

const MARKET: [u8; 20] = [0x11; 20];
const FACTORY: [u8; 20] = [0xfa; 20];
const ALICE: [u8; 20] = [0xaa; 20];
const BOB: [u8; 20] = [0xbb; 20];
const PLUGIN: [u8; 20] = [0x99; 20];
const NOBODY: [u8; 20] = [0; 20];

#[derive(Debug, PartialEq)]
enum Key {
    Single(String),
    Parts(BTreeMap<String, String>),
}

#[derive(Debug, PartialEq)]
struct Row {
    table: String,
    key: Key,
    ordinal: u64,
    fields: BTreeMap<String, String>,
}

fn rows(changes: &DatabaseChanges) -> Vec<Row> {
    changes
        .table_changes
        .iter()
        .map(|change| {
            let key = match change.primary_key.as_ref().unwrap() {
                PrimaryKey::Pk(text) => Key::Single(text.clone()),
                PrimaryKey::CompositePk(parts) => {
                    Key::Parts(parts.keys.iter().map(|(k, v)| (k.clone(), v.clone())).collect())
                }
            };
            assert!(change.operation == Operation::Create);
            assert_eq!(change.fields.len(), {
                let names: BTreeMap<&String, ()> = change.fields.iter().map(|f| (&f.name, ())).collect();
                names.len()
            });
            Row {
                table: change.table.clone(),
                key,
                ordinal: change.ordinal,
                fields: change.fields.iter().map(|f| (f.name.clone(), f.value.clone())).collect(),
            }
        })
        .collect()
}

fn map(pairs: &[(&str, &str)]) -> BTreeMap<String, String> {
    pairs.iter().map(|(k, v)| (k.to_string(), v.to_string())).collect()
}

fn created(table: &str, key: &str, ordinal: u64, fields: &[(&str, &str)]) -> Row {
    Row { table: table.to_string(), key: Key::Single(key.to_string()), ordinal, fields: map(fields) }
}

fn pair(address: &str, account: &str) -> Key {
    Key::Parts(map(&[("address", address), ("account", account)]))
}

fn installation(address: &str, account: &str, ordinal: u64, block: &str, log: &str) -> Row {
    Row {
        table: "exa_plugins".to_string(),
        key: pair(address, account),
        ordinal,
        fields: map(&[("address", address), ("account", account), ("block", block), ("ordinal", log)]),
    }
}

fn anchor(number: &str, ordinal: u64, timestamp: &str) -> Row {
    created("blocks", number, ordinal, &[("timestamp", timestamp)])
}

fn plugin(account: &[u8], address: &[u8], ordinal: u64) -> Plugin {
    Plugin { address: address.to_vec(), account: account.to_vec(), ordinal }
}

fn no_deltas() -> BlockDeltas {
    BlockDeltas { shares: vec![], positions: vec![], enrollment: vec![], accounts: vec![] }
}

fn delta(key: &[&str], ordinal: u64, new_value: &str) -> Delta {
    Delta {
        key: key.iter().map(|segment| segment.to_string()).collect(),
        ordinal,
        old_value: None,
        new_value: BigInt::parse(new_value).unwrap(),
    }
}

fn signature(tag: u8) -> Vec<u8> {
    vec![tag; 32]
}

fn topic(address: &[u8]) -> Vec<u8> {
    let mut word = vec![0u8; 12];
    word.extend_from_slice(address);
    word
}

fn word(value: u64) -> Vec<u8> {
    let mut word = vec![0u8; 24];
    word.extend_from_slice(&value.to_be_bytes());
    word
}

fn pipeline() -> Pipeline {
    let mut registry = Registry::new();
    registry.register(&MARKET, Role::Market).unwrap();
    registry.register(&FACTORY, Role::Factory).unwrap();
    let mut decoders = DecoderTable::new();
    decoders
        .register(Decoder {
            role: Role::Market,
            kind: EventKind::Transfer,
            signature: signature(1),
            topic_count: 3,
            data_length: 32,
            exact_length: true,
            sources: vec![Topic(1), Topic(2), Word(0)],
        })
        .unwrap();
    decoders
        .register(Decoder {
            role: Role::Factory,
            kind: EventKind::AccountInitialized,
            signature: signature(2),
            topic_count: 2,
            data_length: 0,
            exact_length: true,
            sources: vec![Topic(1)],
        })
        .unwrap();
    decoders
        .register(Decoder {
            role: Role::Market,
            kind: EventKind::PluginInstalled,
            signature: signature(3),
            topic_count: 2,
            data_length: 96,
            exact_length: false,
            sources: vec![Topic(1)],
        })
        .unwrap();
    Pipeline { registry, decoders }
}

fn transfer(from: &[u8], to: &[u8], amount: u64, ordinal: u64) -> LogEntry {
    LogEntry {
        address: MARKET.to_vec(),
        topics: vec![signature(1), topic(from), topic(to)],
        data: word(amount),
        ordinal,
    }
}

fn initialized(account: &[u8], ordinal: u64) -> LogEntry {
    LogEntry { address: FACTORY.to_vec(), topics: vec![signature(2), topic(account)], data: vec![], ordinal }
}

fn installed(account: &[u8], plugin: &[u8], ordinal: u64) -> LogEntry {
    LogEntry {
        address: account.to_vec(),
        topics: vec![signature(3), topic(plugin)],
        data: vec![0; 128],
        ordinal,
    }
}

#[test]
fn plugins_are_created_and_the_block_is_anchored() {
    let clock = Clock { number: 100, timestamp: Some(1_700_000_000) };
    let plugins = Plugins { plugins: vec![plugin(&ALICE, &PLUGIN, 7), plugin(&BOB, &PLUGIN, 9)] };
    let changes = db_out(&clock, &plugins).unwrap();
    let plugin_hex = "99".repeat(20);
    assert_eq!(
        rows(&changes),
        vec![
            installation(&plugin_hex, &"aa".repeat(20), 0, "100", "7"),
            installation(&plugin_hex, &"bb".repeat(20), 4, "100", "9"),
            anchor("100", 8, "1700000000"),
        ]
    );
}

#[test]
fn one_plugin_gives_its_row_under_address_and_account_and_the_anchor() {
    let clock = Clock { number: 100, timestamp: Some(1_700_000_000) };
    let plugins = Plugins { plugins: vec![plugin(&[0xaa; 20], &[0x01; 20], 3)] };
    let changes = db_out(&clock, &plugins).unwrap();
    assert_eq!(changes.table_changes.len(), 2);
    let first = &changes.table_changes[0];
    assert_eq!(first.table, "exa_plugins");
    match first.primary_key.as_ref().unwrap() {
        PrimaryKey::CompositePk(parts) => {
            assert_eq!(parts.keys.len(), 2);
            assert_eq!(parts.keys["address"], "01".repeat(20));
            assert_eq!(parts.keys["account"], "aa".repeat(20));
        }
        PrimaryKey::Pk(_) => panic!("a single key"),
    }
    assert_eq!(
        rows(&changes),
        vec![
            installation(&"01".repeat(20), &"aa".repeat(20), 0, "100", "3"),
            anchor("100", 4, "1700000000"),
        ]
    );
}

#[test]
fn the_keys_of_the_plugin_rows_are_the_pairs_of_the_list() {
    let clock = Clock { number: 9, timestamp: Some(1) };
    let plugins = Plugins {
        plugins: vec![
            plugin(&ALICE, &PLUGIN, 1),
            plugin(&BOB, &PLUGIN, 2),
            plugin(&ALICE, &BOB, 3),
            plugin(&BOB, &PLUGIN, 4),
            plugin(&ALICE, &PLUGIN, 5),
        ],
    };
    let found = rows(&db_out(&clock, &plugins).unwrap());
    let keys: Vec<&Key> = found.iter().filter(|row| row.table == "exa_plugins").map(|row| &row.key).collect();
    let (alice, bob, plugin_hex) = ("aa".repeat(20), "bb".repeat(20), "99".repeat(20));
    assert_eq!(keys, vec![&pair(&plugin_hex, &alice), &pair(&plugin_hex, &bob), &pair(&bob, &alice)]);
    assert_eq!(found.len(), 4);
    assert_eq!(found[3], anchor("9", 20, "1"));
}

#[test]
fn a_block_without_plugins_gets_no_anchor() {
    let clock = Clock { number: 100, timestamp: Some(1_700_000_000) };
    let changes = db_out(&clock, &Plugins { plugins: vec![] }).unwrap();
    assert!(changes.table_changes.is_empty());
}

#[test]
fn a_plugin_installed_twice_on_one_account_shares_its_row() {
    let clock = Clock { number: 5, timestamp: Some(60) };
    let plugins = Plugins {
        plugins: vec![plugin(&ALICE, &PLUGIN, 1), plugin(&BOB, &PLUGIN, 2), plugin(&ALICE, &PLUGIN, 7)],
    };
    let found = rows(&db_out(&clock, &plugins).unwrap());
    let plugin_hex = "99".repeat(20);
    assert_eq!(
        found,
        vec![
            installation(&plugin_hex, &"aa".repeat(20), 0, "5", "7"),
            installation(&plugin_hex, &"bb".repeat(20), 4, "5", "2"),
            anchor("5", 12, "60"),
        ]
    );
}

#[test]
fn plugin_rows_stand_among_the_rows_of_other_events() {
    let clock = Clock { number: 7, timestamp: Some(1) };
    let entered = || DomainEvent::MarketEntered { market: MARKET.to_vec(), account: ALICE.to_vec(), ordinal: 4 };
    let install =
        |ordinal: u64| DomainEvent::PluginInstalled { plugin: PLUGIN.to_vec(), account: ALICE.to_vec(), ordinal };
    let events = vec![entered(), install(5), entered(), install(6), entered()];
    let found = rows(&emit(&clock, &events, &no_deltas()).unwrap());
    assert_eq!(found.len(), 5);
    assert_eq!(found[0].key, Key::Single("7-0".to_string()));
    assert_eq!(found[1], installation(&"99".repeat(20), &"aa".repeat(20), 4, "7", "6"));
    assert_eq!(found[2].key, Key::Single("7-2".to_string()));
    assert_eq!((found[2].table.as_str(), found[2].ordinal), ("markets_entered", 8));
    assert_eq!(found[3].key, Key::Single("7-3".to_string()));
    assert_eq!(found[3].ordinal, 16);
    assert_eq!(found[4], anchor("7", 20, "1"));
}

#[test]
fn a_missing_timestamp_is_written_as_zero() {
    let clock = Clock { number: 0, timestamp: None };
    let plugins = Plugins { plugins: vec![plugin(&ALICE, &PLUGIN, 1)] };
    let found = rows(&db_out(&clock, &plugins).unwrap());
    assert_eq!(found[1], anchor("0", 4, "0"));
    let early = Clock { number: u64::MAX, timestamp: Some(-5) };
    let found = rows(&db_out(&early, &plugins).unwrap());
    assert_eq!(found[0].key, pair(&"99".repeat(20), &"aa".repeat(20)));
    assert_eq!(found[1], anchor("18446744073709551615", 4, "-5"));
}

#[test]
fn events_and_deltas_become_rows() {
    let clock = Clock { number: 100, timestamp: Some(1_700_000_000) };
    let events = vec![
        DomainEvent::Transfer {
            token: MARKET.to_vec(),
            from: NOBODY.to_vec(),
            to: ALICE.to_vec(),
            amount: "500".to_string(),
            ordinal: 3,
        },
        DomainEvent::MarketEntered { market: MARKET.to_vec(), account: ALICE.to_vec(), ordinal: 4 },
    ];
    let market = "11".repeat(20);
    let alice = "aa".repeat(20);
    let deltas = BlockDeltas {
        shares: vec![delta(&[&market, &alice], 3, "500")],
        positions: vec![delta(&[&market, "1700000000", &alice], 5, "-25")],
        enrollment: vec![delta(&[&market, &alice], 4, "1")],
        accounts: vec![delta(&[&alice], 6, "1")],
    };
    let changes = emit(&clock, &events, &deltas).unwrap();
    assert_eq!(
        rows(&changes),
        vec![
            created(
                "transfers",
                "100-0",
                0,
                &[
                    ("token", &market),
                    ("from", &"00".repeat(20)),
                    ("to", &alice),
                    ("amount", "500"),
                    ("block", "100"),
                    ("ordinal", "3"),
                ],
            ),
            created(
                "markets_entered",
                "100-1",
                6,
                &[("market", &market), ("account", &alice), ("block", "100"), ("ordinal", "4")],
            ),
            created(
                "shares",
                "100-2",
                10,
                &[
                    ("market", &market),
                    ("account", &alice),
                    ("amount", "500"),
                    ("block", "100"),
                    ("ordinal", "3"),
                ],
            ),
            created(
                "positions",
                "100-3",
                15,
                &[
                    ("market", &market),
                    ("maturity", "1700000000"),
                    ("borrower", &alice),
                    ("amount", "-25"),
                    ("block", "100"),
                    ("ordinal", "5"),
                ],
            ),
            created(
                "enrollment",
                "100-4",
                21,
                &[
                    ("market", &market),
                    ("account", &alice),
                    ("entered", "1"),
                    ("block", "100"),
                    ("ordinal", "4"),
                ],
            ),
            created(
                "tracked_accounts",
                "100-5",
                26,
                &[("account", &alice), ("tracked", "1"), ("block", "100"), ("ordinal", "6")],
            ),
            anchor("100", 30, "1700000000"),
        ]
    );
}

#[test]
fn two_deltas_of_one_key_give_two_rows_in_ordinal_order() {
    let clock = Clock { number: 100, timestamp: Some(1) };
    let mut deltas = no_deltas();
    deltas.shares = vec![delta(&["m", "a"], 3, "10"), delta(&["m", "b"], 4, "1"), delta(&["m", "a"], 8, "7")];
    let found = rows(&emit(&clock, &vec![], &deltas).unwrap());
    assert_eq!(found.len(), 4);
    assert_eq!(found.iter().filter(|row| row.table == "shares").count(), 3);
    assert_eq!(
        found[0],
        created(
            "shares",
            "100-0",
            0,
            &[("market", "m"), ("account", "a"), ("amount", "10"), ("block", "100"), ("ordinal", "3")],
        )
    );
    assert_eq!(found[1].fields["account"], "b");
    assert_eq!(
        found[2],
        created(
            "shares",
            "100-2",
            10,
            &[("market", "m"), ("account", "a"), ("amount", "7"), ("block", "100"), ("ordinal", "8")],
        )
    );
    assert_eq!(found[3], anchor("100", 15, "1"));
}

#[test]
fn events_that_hold_the_same_have_rows_of_their_own() {
    let clock = Clock { number: 7, timestamp: Some(1) };
    let same = || DomainEvent::MarketEntered { market: MARKET.to_vec(), account: ALICE.to_vec(), ordinal: 4 };
    let found = rows(&emit(&clock, &vec![same(), same()], &no_deltas()).unwrap());
    assert_eq!(found.len(), 3);
    assert_eq!(found[0].table, "markets_entered");
    assert_eq!(found[1].table, "markets_entered");
    assert_eq!(found[0].fields, found[1].fields);
    assert_eq!(found[0].key, Key::Single("7-0".to_string()));
    assert_eq!(found[1].key, Key::Single("7-1".to_string()));
}

#[test]
fn nothing_to_write_gives_an_empty_changeset() {
    let clock = Clock { number: 100, timestamp: Some(1) };
    assert!(emit(&clock, &vec![], &no_deltas()).unwrap().table_changes.is_empty());
}

#[test]
fn a_delta_whose_key_has_the_wrong_number_of_segments_fails_the_block() {
    let clock = Clock { number: 100, timestamp: Some(1) };
    let mut deltas = no_deltas();
    deltas.shares = vec![delta(&["m", "a"], 3, "10"), delta(&["m"], 4, "1")];
    assert_eq!(emit(&clock, &vec![], &deltas).err(), Some(Error::KeyShape));
    let mut deltas = no_deltas();
    deltas.accounts = vec![delta(&["m", "a"], 3, "1")];
    assert_eq!(emit(&clock, &vec![], &deltas).err(), Some(Error::KeyShape));
}

#[test]
fn a_minted_transfer_runs_from_log_to_row() {
    let block = Block::new(100, 1_700_000_000, vec![transfer(&NOBODY, &ALICE, 500, 3)]).unwrap();
    let mut stores = Stores::new();
    let output = pipeline().process_block(&mut stores, &block).unwrap();
    assert_eq!(
        output.events,
        vec![DomainEvent::Transfer {
            token: MARKET.to_vec(),
            from: NOBODY.to_vec(),
            to: ALICE.to_vec(),
            amount: "500".to_string(),
            ordinal: 3,
        }]
    );
    let market = to_hex(&MARKET);
    let alice = to_hex(&ALICE);
    assert_eq!(output.deltas.shares.len(), 1);
    let delta = &output.deltas.shares[0];
    assert_eq!(delta.key.join(":"), format!("{}:{}", market, alice));
    assert_eq!(delta.ordinal, 3);
    assert_eq!(delta.old_value.as_ref().unwrap().to_decimal(), "0");
    assert_eq!(delta.new_value.to_decimal(), "500");
    assert_eq!(stores.shares.get_last(&vec![market.clone(), alice.clone()]).unwrap().to_decimal(), "500");
    let found = rows(&output.changes);
    let shares: Vec<&Row> = found.iter().filter(|row| row.table == "shares").collect();
    assert_eq!(shares.len(), 1);
    assert_eq!(shares[0].fields["market"], market);
    assert_eq!(shares[0].fields["account"], alice);
    assert_eq!(shares[0].fields["amount"], "500");
    assert_eq!(shares[0].fields["block"], "100");
    assert_eq!(shares[0].fields["ordinal"], "3");
    assert_eq!(found.len(), 3);
    assert_eq!(found[0].table, "transfers");
    assert_eq!(found[2], anchor("100", 11, "1700000000"));
    assert!(stores.shares.deltas().is_empty());
}

#[test]
fn a_block_evaluated_twice_gives_the_same_output() {
    let logs = vec![
        transfer(&NOBODY, &ALICE, 500, 3),
        initialized(&BOB, 4),
        installed(&BOB, &PLUGIN, 5),
        installed(&BOB, &ALICE, 6),
        transfer(&ALICE, &BOB, 120, 9),
    ];
    let run = || {
        let block = Block::new(7, 70, logs.clone()).unwrap();
        let mut stores = Stores::new();
        stores.shares.apply(0, &vec![to_hex(&MARKET), to_hex(&ALICE)], &BigInt::from_u64(5)).unwrap();
        stores.take_deltas();
        let output = pipeline().process_block(&mut stores, &block).unwrap();
        let deltas: Vec<(String, u64, String)> = output
            .deltas
            .shares
            .iter()
            .chain(output.deltas.accounts.iter())
            .map(|delta| (delta.key.join(":"), delta.ordinal, delta.new_value.to_decimal()))
            .collect();
        (output.events, deltas, rows(&output.changes))
    };
    let first = run();
    let second = run();
    assert_eq!(first, second);
    assert_eq!(first.0.len(), 4);
    assert_eq!(first.0[2].kind(), EventKind::PluginInstalled);
    assert_eq!(first.0[2].ordinal(), 6);
    assert_eq!(first.1.len(), 4);
    assert_eq!(first.1[0].2, "505");
    assert_eq!(first.1[1].2, "385");
    assert_eq!(first.1[2].2, "120");
    assert_eq!(first.2.len(), 4 + 4 + 1);
}

#[test]
fn an_account_is_tracked_from_the_block_after_its_initialisation() {
    let pipeline = pipeline();
    let mut stores = Stores::new();
    let first = Block::new(1, 10, vec![installed(&BOB, &PLUGIN, 1), initialized(&BOB, 2)]).unwrap();
    let output = pipeline.process_block(&mut stores, &first).unwrap();
    assert_eq!(output.events.len(), 1);
    assert_eq!(output.events[0].kind(), EventKind::AccountInitialized);
    let second = Block::new(2, 20, vec![installed(&BOB, &PLUGIN, 1), installed(&ALICE, &PLUGIN, 2)]).unwrap();
    let output = pipeline.process_block(&mut stores, &second).unwrap();
    assert_eq!(
        output.events,
        vec![DomainEvent::PluginInstalled { plugin: PLUGIN.to_vec(), account: BOB.to_vec(), ordinal: 1 }]
    );
    let found = rows(&output.changes);
    assert_eq!(
        found,
        vec![
            installation(&"99".repeat(20), &"bb".repeat(20), 0, "2", "1"),
            anchor("2", 4, "20"),
        ]
    );
}

#[test]
fn a_block_without_known_logs_changes_nothing() {
    let pipeline = pipeline();
    let mut stores = Stores::new();
    let block = Block::new(1, 10, vec![installed(&BOB, &PLUGIN, 1)]).unwrap();
    let output = pipeline.process_block(&mut stores, &block).unwrap();
    assert!(output.events.is_empty());
    assert!(output.deltas.shares.is_empty() && output.deltas.accounts.is_empty());
    assert!(output.changes.table_changes.is_empty());
}

#[test]
fn stores_rebuilt_from_deltas_evaluate_an_alternate_chain_like_fresh_ones() {
    let pipeline = pipeline();
    let common = Block::new(1, 10, vec![transfer(&NOBODY, &ALICE, 500, 1)]).unwrap();
    let canonical = Block::new(2, 20, vec![transfer(&ALICE, &BOB, 100, 1)]).unwrap();
    let alternate = Block::new(2, 21, vec![transfer(&ALICE, &BOB, 30, 1), initialized(&BOB, 2)]).unwrap();
    let mut live = Stores::new();
    let kept = pipeline.process_block(&mut live, &common).unwrap().deltas;
    pipeline.process_block(&mut live, &canonical).unwrap();
    let mut rewound = Stores::new();
    rewound.shares = exa_substreams::store::Store::replay(live.shares.policy(), &kept.shares);
    rewound.accounts = exa_substreams::store::Store::replay(live.accounts.policy(), &kept.accounts);
    let replayed = pipeline.process_block(&mut rewound, &alternate).unwrap();
    let mut direct = Stores::new();
    pipeline.process_block(&mut direct, &common).unwrap();
    let fresh = pipeline.process_block(&mut direct, &alternate).unwrap();
    assert_eq!(rows(&replayed.changes), rows(&fresh.changes));
    for account in [&ALICE, &BOB] {
        let key = vec![to_hex(&MARKET), to_hex(account)];
        assert_eq!(
            rewound.shares.get_last(&key).unwrap().to_decimal(),
            direct.shares.get_last(&key).unwrap().to_decimal()
        );
    }
    assert_eq!(rewound.shares.get_last(&vec![to_hex(&MARKET), to_hex(&ALICE)]).unwrap().to_decimal(), "470");
    assert_eq!(rewound.accounts.get_last(&vec![to_hex(&BOB)]).unwrap().to_decimal(), "1");
}

#[test]
fn a_block_starts_without_the_deltas_of_earlier_changes() {
    let pipeline = pipeline();
    let mut stores = Stores::new();
    stores.shares.apply(9, &vec![to_hex(&MARKET), to_hex(&ALICE)], &BigInt::from_u64(5)).unwrap();
    let block = Block::new(1, 10, vec![transfer(&ALICE, &BOB, 2, 1)]).unwrap();
    let output = pipeline.process_block(&mut stores, &block).unwrap();
    assert_eq!(output.deltas.shares.len(), 2);
    assert_eq!(output.deltas.shares[0].old_value.as_ref().unwrap().to_decimal(), "5");
    assert_eq!(output.deltas.shares[0].new_value.to_decimal(), "3");
    assert!(stores.shares.deltas().is_empty());
}

#[test]
fn every_failure_has_its_words() {
    let all = [
        Error::MalformedAddress,
        Error::AddressLength,
        Error::RoleConflict,
        Error::MalformedDecoder,
        Error::OrdinalOrder,
        Error::OrdinalRegression,
        Error::MalformedAmount,
        Error::KeyShape,
        Error::TooManyRows,
    ];
    for (i, first) in all.iter().enumerate() {
        assert!(!first.message().is_empty());
        for second in &all[i + 1..] {
            assert_ne!(first.message(), second.message());
        }
    }
    assert_eq!(Error::MalformedAmount.message(), "a numeric field is no decimal text");
}
