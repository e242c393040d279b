use exa_substreams::accumulate::{plan, store_exa_accounts, zero_address, StoreId, Stores};
use exa_substreams::aggregator::{
    accounts_of, aggregate, map_exa_accounts, map_exa_plugins, of_kind, plugins_of,
};
use exa_substreams::bigint::BigInt;
use exa_substreams::decoder::FieldSource::{Topic, Word};
use exa_substreams::decoder::{Decoder, DecoderTable, DomainEvent, EventKind, FieldSource};
use exa_substreams::encoding::to_hex;
use exa_substreams::error::Error;
use exa_substreams::registry::{Registry, Role};
use exa_substreams::store::{Policy, Store};
use exa_substreams::types::{Accounts, Block, Clock, Factories, LogEntry, Plugin};

const MARKET: [u8; 20] = [0x11; 20];
const FACTORY: [u8; 20] = [0xfa; 20];
const AUDITOR: [u8; 20] = [0xad; 20];
const ALICE: [u8; 20] = [0xaa; 20];
const BOB: [u8; 20] = [0xbb; 20];
const CAROL: [u8; 20] = [0xcc; 20];
const PLUGIN: [u8; 20] = [0x99; 20];
const NOBODY: [u8; 20] = [0; 20];

const TRANSFER: u8 = 1;
const INITIALIZED: u8 = 2;
const INSTALLED: u8 = 3;
const ENTERED: u8 = 4;
const EXITED: u8 = 5;
const OPENED: u8 = 6;
const CLOSED: u8 = 7;

fn signature(tag: u8) -> Vec<u8> {
    vec![tag; 32]
}

fn topic(address: &[u8]) -> Vec<u8> {
    let mut word = vec![0u8; 12];
    word.extend_from_slice(address);
    word
}

fn word(value: u64) -> Vec<u8> {
    let mut word = vec![0u8; 24];
    word.extend_from_slice(&value.to_be_bytes());
    word
}

fn decoder(
    role: Role,
    kind: EventKind,
    tag: u8,
    topic_count: usize,
    data_length: usize,
    exact_length: bool,
    sources: Vec<FieldSource>,
) -> Decoder {
    Decoder { role, kind, signature: signature(tag), topic_count, data_length, exact_length, sources }
}

fn decoders() -> DecoderTable {
    let mut table = DecoderTable::new();
    let all = vec![
        decoder(Role::Market, EventKind::Transfer, TRANSFER, 3, 32, true, vec![Topic(1), Topic(2), Word(0)]),
        decoder(Role::Factory, EventKind::AccountInitialized, INITIALIZED, 2, 0, true, vec![Topic(1)]),
        decoder(Role::Market, EventKind::PluginInstalled, INSTALLED, 2, 96, false, vec![Topic(1)]),
        decoder(Role::Auditor, EventKind::MarketEntered, ENTERED, 3, 0, true, vec![Topic(1), Topic(2)]),
        decoder(Role::Auditor, EventKind::MarketExited, EXITED, 3, 0, true, vec![Topic(1), Topic(2)]),
        decoder(
            Role::Market,
            EventKind::PositionOpened,
            OPENED,
            4,
            96,
            true,
            vec![Topic(1), Topic(3), Word(1), Word(2)],
        ),
        decoder(Role::Market, EventKind::PositionClosed, CLOSED, 4, 64, true, vec![Topic(1), Topic(3), Word(1)]),
    ];
    for one in all {
        table.register(one).unwrap();
    }
    table
}

fn log(address: &[u8], tag: u8, topics: Vec<Vec<u8>>, data: Vec<u8>, ordinal: u64) -> LogEntry {
    let mut all = vec![signature(tag)];
    all.extend(topics);
    LogEntry { address: address.to_vec(), topics: all, data, ordinal }
}

fn transfer(from: &[u8], to: &[u8], amount: u64, ordinal: u64) -> LogEntry {
    log(&MARKET, TRANSFER, vec![topic(from), topic(to)], word(amount), ordinal)
}

fn initialized(account: &[u8], ordinal: u64) -> LogEntry {
    log(&FACTORY, INITIALIZED, vec![topic(account)], vec![], ordinal)
}

fn installed(account: &[u8], plugin: &[u8], ordinal: u64) -> LogEntry {
    log(account, INSTALLED, vec![topic(plugin)], vec![0; 128], ordinal)
}

fn block(logs: Vec<LogEntry>) -> Block {
    Block::new(100, 1_700_000_000, logs).unwrap()
}

fn plugin(account: &[u8], address: &[u8], ordinal: u64) -> Plugin {
    Plugin { address: address.to_vec(), account: account.to_vec(), ordinal }
}

fn tracking(accounts: &[&[u8]]) -> Store {
    let mut store = Store::new(Policy::Overwrite);
    let list = Accounts { accounts: accounts.iter().map(|account| account.to_vec()).collect() };
    store_exa_accounts(&list, &mut store).unwrap();
    store.take_deltas();
    store
}

fn balance(stores: &Stores, id: StoreId, segments: Vec<String>) -> Option<String> {
    let store = match id {
        StoreId::Shares => &stores.shares,
        StoreId::Positions => &stores.positions,
        StoreId::Enrollment => &stores.enrollment,
        StoreId::Accounts => &stores.accounts,
    };
    store.get_last(&segments).map(|value| value.to_decimal())
}

#[test]
fn a_block_keeps_number_timestamp_and_logs() {
    let logs = vec![transfer(&ALICE, &BOB, 1, 3), transfer(&BOB, &ALICE, 2, 8)];
    let block = Block::new(100, 1_700_000_000, logs.clone()).unwrap();
    assert_eq!(block.number(), 100);
    assert_eq!(block.timestamp(), 1_700_000_000);
    assert_eq!(block.logs(), &logs);
    assert_eq!(block.clock(), Clock { number: 100, timestamp: Some(1_700_000_000) });
}

#[test]
fn a_block_whose_ordinals_do_not_strictly_increase_is_refused() {
    let equal = vec![transfer(&ALICE, &BOB, 1, 3), transfer(&BOB, &ALICE, 2, 3)];
    assert_eq!(Block::new(1, 0, equal).err(), Some(Error::OrdinalOrder));
    let falling = vec![transfer(&ALICE, &BOB, 1, 3), transfer(&BOB, &ALICE, 2, 2)];
    assert_eq!(Block::new(1, 0, falling).err(), Some(Error::OrdinalOrder));
    assert!(Block::new(1, 0, vec![]).is_ok());
}

#[test]
fn a_log_of_an_address_that_has_not_twenty_bytes_is_refused() {
    let mut short = transfer(&ALICE, &BOB, 1, 3);
    short.address.pop();
    assert_eq!(Block::new(1, 0, vec![short.clone()]).err(), Some(Error::AddressLength));
    let both = vec![transfer(&ALICE, &BOB, 1, 9), short];
    assert_eq!(Block::new(1, 0, both).err(), Some(Error::AddressLength));
}

#[test]
fn accounts_are_those_that_the_factories_initialised() {
    let factories = Factories { factories: vec![format!("0x{}", to_hex(&FACTORY))] };
    let block = block(vec![
        initialized(&ALICE, 1),
        transfer(&ALICE, &BOB, 5, 2),
        log(&CAROL, INITIALIZED, vec![topic(&CAROL)], vec![], 3),
        initialized(&BOB, 4),
    ]);
    let found = map_exa_accounts(&factories, &block, &decoders()).unwrap();
    assert_eq!(found, Accounts { accounts: vec![ALICE.to_vec(), BOB.to_vec()] });
}

#[test]
fn accounts_need_a_decoder_of_the_factory_role() {
    let factories = Factories { factories: vec![to_hex(&FACTORY)] };
    let block = block(vec![initialized(&ALICE, 1)]);
    let mut table = DecoderTable::new();
    table
        .register(decoder(
            Role::Market,
            EventKind::AccountInitialized,
            INITIALIZED,
            2,
            0,
            true,
            vec![FieldSource::Topic(1)],
        ))
        .unwrap();
    assert_eq!(map_exa_accounts(&factories, &block, &table).unwrap().accounts.len(), 0);
    assert_eq!(map_exa_accounts(&factories, &block, &decoders()).unwrap().accounts.len(), 1);
}

#[test]
fn without_factories_no_account_is_found() {
    let factories = Factories { factories: vec![] };
    let block = block(vec![initialized(&ALICE, 1)]);
    assert_eq!(map_exa_accounts(&factories, &block, &decoders()).unwrap().accounts.len(), 0);
}

#[test]
fn a_malformed_factory_address_fails_the_block() {
    let block = block(vec![initialized(&ALICE, 1)]);
    for bad in ["0xzz", "abc", "", "f", "factory"] {
        let factories = Factories { factories: vec![to_hex(&FACTORY), bad.to_string()] };
        assert_eq!(map_exa_accounts(&factories, &block, &decoders()), Err(Error::MalformedAddress));
    }
}

#[test]
fn a_plugin_counts_where_its_account_is_tracked_in_the_store() {
    let block = block(vec![
        installed(&ALICE, &PLUGIN, 1),
        installed(&BOB, &PLUGIN, 2),
        installed(&ALICE, &CAROL, 3),
    ]);
    let store = tracking(&[&ALICE]);
    let new = Accounts { accounts: vec![] };
    let found = map_exa_plugins(&block, &new, &store, &decoders()).unwrap();
    assert_eq!(found.plugins, vec![plugin(&ALICE, &PLUGIN, 1), plugin(&ALICE, &CAROL, 3)]);
}

#[test]
fn the_first_log_of_an_account_of_this_block_is_passed_over() {
    let block = block(vec![
        installed(&ALICE, &PLUGIN, 1),
        installed(&BOB, &PLUGIN, 2),
        installed(&ALICE, &CAROL, 3),
        installed(&ALICE, &BOB, 4),
        installed(&BOB, &CAROL, 5),
    ]);
    let store = tracking(&[]);
    let new = Accounts { accounts: vec![ALICE.to_vec(), ALICE.to_vec(), BOB.to_vec()] };
    let found = map_exa_plugins(&block, &new, &store, &decoders()).unwrap();
    assert_eq!(
        found.plugins,
        vec![plugin(&ALICE, &CAROL, 3), plugin(&ALICE, &BOB, 4), plugin(&BOB, &CAROL, 5)]
    );
}

#[test]
fn an_account_of_this_block_is_not_looked_up_in_the_store() {
    let block = block(vec![installed(&ALICE, &PLUGIN, 1)]);
    let store = tracking(&[&ALICE]);
    let new = Accounts { accounts: vec![ALICE.to_vec()] };
    assert!(map_exa_plugins(&block, &new, &store, &decoders()).unwrap().plugins.is_empty());
    let nobody = Accounts { accounts: vec![] };
    assert_eq!(map_exa_plugins(&block, &nobody, &store, &decoders()).unwrap().plugins.len(), 1);
}

#[test]
fn a_store_value_other_than_one_does_not_track() {
    let block = block(vec![installed(&ALICE, &PLUGIN, 1)]);
    let mut store = Store::new(Policy::Overwrite);
    store.apply(0, &vec![to_hex(&ALICE)], &BigInt::from_u64(2)).unwrap();
    let new = Accounts { accounts: vec![] };
    assert!(map_exa_plugins(&block, &new, &store, &decoders()).unwrap().plugins.is_empty());
}

#[test]
fn a_log_that_is_no_plugin_installation_gives_no_plugin() {
    let mut other = installed(&ALICE, &PLUGIN, 1);
    other.topics[0] = signature(0xee);
    let mut short = installed(&ALICE, &PLUGIN, 2);
    short.data.truncate(95);
    let block = block(vec![other, short, transfer(&ALICE, &BOB, 1, 3)]);
    let store = tracking(&[&ALICE, &MARKET]);
    let new = Accounts { accounts: vec![] };
    assert!(map_exa_plugins(&block, &new, &store, &decoders()).unwrap().plugins.is_empty());
}

#[test]
fn events_come_out_in_log_order() {
    let mut registry = Registry::new();
    registry.register(&MARKET, Role::Market).unwrap();
    registry.register(&FACTORY, Role::Factory).unwrap();
    registry.register(&AUDITOR, Role::Auditor).unwrap();
    let block = block(vec![
        transfer(&NOBODY, &ALICE, 500, 3),
        log(&AUDITOR, ENTERED, vec![topic(&MARKET), topic(&ALICE)], vec![], 4),
        log(&BOB, TRANSFER, vec![topic(&ALICE), topic(&BOB)], word(1), 5),
        initialized(&CAROL, 6),
        installed(&ALICE, &PLUGIN, 7),
        log(&AUDITOR, TRANSFER, vec![topic(&ALICE), topic(&BOB)], word(1), 8),
    ]);
    let store = tracking(&[&ALICE]);
    let nobody = Accounts { accounts: vec![] };
    let events = aggregate(&block, &registry, &decoders(), &nobody, &store);
    assert_eq!(
        events,
        vec![
            DomainEvent::Transfer {
                token: MARKET.to_vec(),
                from: NOBODY.to_vec(),
                to: ALICE.to_vec(),
                amount: "500".to_string(),
                ordinal: 3,
            },
            DomainEvent::MarketEntered { market: MARKET.to_vec(), account: ALICE.to_vec(), ordinal: 4 },
            DomainEvent::AccountInitialized { account: CAROL.to_vec(), ordinal: 6 },
            DomainEvent::PluginInstalled { plugin: PLUGIN.to_vec(), account: ALICE.to_vec(), ordinal: 7 },
        ]
    );
    assert_eq!(accounts_of(&events), vec![CAROL.to_vec()]);
    assert_eq!(plugins_of(&events), vec![plugin(&ALICE, &PLUGIN, 7)]);
    assert_eq!(of_kind(&events, EventKind::Transfer), vec![events[0].duplicate()]);
    assert_eq!(of_kind(&events, EventKind::MarketEntered), vec![events[1].duplicate()]);
    assert!(of_kind(&events, EventKind::PositionOpened).is_empty());
}

#[test]
fn an_account_of_this_block_counts_after_its_first_log_of_any_kind() {
    let registry = Registry::new();
    let block = block(vec![
        log(&ALICE, TRANSFER, vec![topic(&ALICE), topic(&BOB)], word(1), 1),
        installed(&ALICE, &PLUGIN, 2),
    ]);
    let store = tracking(&[]);
    let new = Accounts { accounts: vec![ALICE.to_vec()] };
    let events = aggregate(&block, &registry, &decoders(), &new, &store);
    assert_eq!(plugins_of(&events), vec![plugin(&ALICE, &PLUGIN, 2)]);
    assert!(map_exa_plugins(&block, &new, &store, &decoders()).unwrap().plugins.is_empty());
}

#[test]
fn tracked_accounts_are_set_to_one_at_ordinal_zero() {
    let mut store = Store::new(Policy::Overwrite);
    let new = Accounts { accounts: vec![ALICE.to_vec(), BOB.to_vec(), ALICE.to_vec()] };
    assert_eq!(store_exa_accounts(&new, &mut store), Ok(()));
    assert_eq!(store.get_last(&vec![to_hex(&ALICE)]).unwrap().to_decimal(), "1");
    assert_eq!(store.get_last(&vec![to_hex(&BOB)]).unwrap().to_decimal(), "1");
    assert!(store.get_last(&vec![to_hex(&CAROL)]).is_none());
    let deltas = store.deltas();
    assert_eq!(deltas.len(), 3);
    assert!(deltas.iter().all(|delta| delta.ordinal == 0 && delta.new_value.to_decimal() == "1"));
    assert_eq!(deltas[0].key, vec!["aa".repeat(20)]);
    assert!(deltas[0].old_value.is_none());
    assert_eq!(deltas[2].old_value.as_ref().unwrap().to_decimal(), "1");
}

#[test]
fn tracked_accounts_are_not_set_behind_a_later_ordinal() {
    let mut store = Store::new(Policy::Overwrite);
    store.apply(4, &vec![to_hex(&CAROL)], &BigInt::from_u64(1)).unwrap();
    let new = Accounts { accounts: vec![ALICE.to_vec()] };
    assert_eq!(store_exa_accounts(&new, &mut store), Err(Error::OrdinalRegression));
    assert!(store.get_last(&vec![to_hex(&ALICE)]).is_none());
    assert_eq!(store.deltas().len(), 1);
    let nobody = Accounts { accounts: vec![] };
    assert_eq!(store_exa_accounts(&nobody, &mut store), Ok(()));
}

#[test]
fn transfers_move_shares_between_accounts() {
    let market = to_hex(&MARKET);
    let events = vec![
        DomainEvent::Transfer {
            token: MARKET.to_vec(),
            from: ALICE.to_vec(),
            to: BOB.to_vec(),
            amount: "100".to_string(),
            ordinal: 1,
        },
        DomainEvent::Transfer {
            token: MARKET.to_vec(),
            from: BOB.to_vec(),
            to: ALICE.to_vec(),
            amount: "40".to_string(),
            ordinal: 2,
        },
    ];
    let mut stores = Stores::new();
    assert_eq!(stores.accumulate(&events), Ok(()));
    assert_eq!(
        balance(&stores, StoreId::Shares, vec![market.clone(), to_hex(&ALICE)]),
        Some("-60".to_string())
    );
    assert_eq!(
        balance(&stores, StoreId::Shares, vec![market.clone(), to_hex(&BOB)]),
        Some("60".to_string())
    );
    let deltas = stores.take_deltas();
    let ordinals: Vec<u64> = deltas.shares.iter().map(|delta| delta.ordinal).collect();
    assert_eq!(ordinals, vec![1, 1, 2, 2]);
    assert_eq!(deltas.shares[0].key, vec![market.clone(), to_hex(&ALICE)]);
    assert_eq!(deltas.shares[0].new_value.to_decimal(), "-100");
    assert_eq!(deltas.shares[3].old_value.as_ref().unwrap().to_decimal(), "-100");
    assert_eq!(deltas.shares[3].new_value.to_decimal(), "-60");
    assert!(deltas.positions.is_empty() && deltas.enrollment.is_empty() && deltas.accounts.is_empty());
}

#[test]
fn the_zero_address_has_no_balance() {
    let events = vec![
        DomainEvent::Transfer {
            token: MARKET.to_vec(),
            from: NOBODY.to_vec(),
            to: ALICE.to_vec(),
            amount: "500".to_string(),
            ordinal: 3,
        },
        DomainEvent::Transfer {
            token: MARKET.to_vec(),
            from: ALICE.to_vec(),
            to: NOBODY.to_vec(),
            amount: "200".to_string(),
            ordinal: 4,
        },
        DomainEvent::Transfer {
            token: MARKET.to_vec(),
            from: NOBODY.to_vec(),
            to: NOBODY.to_vec(),
            amount: "7".to_string(),
            ordinal: 5,
        },
    ];
    let planned = plan(&events).unwrap();
    assert_eq!(planned.len(), 2);
    let mut stores = Stores::new();
    stores.accumulate(&events).unwrap();
    assert_eq!(
        balance(&stores, StoreId::Shares, vec![to_hex(&MARKET), to_hex(&ALICE)]),
        Some("300".to_string())
    );
    assert_eq!(stores.shares.deltas().len(), 2);
    assert!(zero_address(&NOBODY));
    assert!(!zero_address(&[]));
    assert!(!zero_address(&[0; 19]));
    assert!(!zero_address(&ALICE));
}

#[test]
fn positions_add_principal_and_fee_and_lose_principal() {
    let opened = |principal: &str, fee: &str, ordinal: u64| DomainEvent::PositionOpened {
        market: MARKET.to_vec(),
        maturity: "1700000000".to_string(),
        borrower: ALICE.to_vec(),
        principal: principal.to_string(),
        fee: fee.to_string(),
        ordinal,
    };
    let closed = DomainEvent::PositionClosed {
        market: MARKET.to_vec(),
        maturity: "1700000000".to_string(),
        borrower: ALICE.to_vec(),
        principal: "400".to_string(),
        ordinal: 9,
    };
    let mut stores = Stores::new();
    stores.accumulate(&vec![opened("1000", "25", 1), opened("10", "1", 2), closed]).unwrap();
    let key = vec![to_hex(&MARKET), "1700000000".to_string(), to_hex(&ALICE)];
    assert_eq!(balance(&stores, StoreId::Positions, key), Some("636".to_string()));
    let other = vec![to_hex(&MARKET), "1800000000".to_string(), to_hex(&ALICE)];
    assert_eq!(balance(&stores, StoreId::Positions, other), Some("0".to_string()));
}

#[test]
fn entering_leaving_and_entering_again_leaves_an_account_enrolled() {
    let entered =
        |ordinal: u64| DomainEvent::MarketEntered { market: MARKET.to_vec(), account: ALICE.to_vec(), ordinal };
    let exited =
        |ordinal: u64| DomainEvent::MarketExited { market: MARKET.to_vec(), account: ALICE.to_vec(), ordinal };
    let key = vec![to_hex(&MARKET), to_hex(&ALICE)];
    let mut stores = Stores::new();
    assert_eq!(balance(&stores, StoreId::Enrollment, key.clone()), None);
    stores.accumulate(&vec![entered(1), exited(2)]).unwrap();
    assert_eq!(balance(&stores, StoreId::Enrollment, key.clone()), Some("0".to_string()));
    stores.accumulate(&vec![entered(3)]).unwrap();
    assert_eq!(balance(&stores, StoreId::Enrollment, key.clone()), Some("1".to_string()));
    stores.accumulate(&vec![entered(3)]).unwrap();
    assert_eq!(balance(&stores, StoreId::Enrollment, key.clone()), Some("1".to_string()));
}

#[test]
fn an_initialised_account_is_tracked() {
    let mut stores = Stores::new();
    stores.accumulate(&vec![DomainEvent::AccountInitialized { account: ALICE.to_vec(), ordinal: 6 }]).unwrap();
    assert_eq!(balance(&stores, StoreId::Accounts, vec![to_hex(&ALICE)]), Some("1".to_string()));
    assert_eq!(stores.accounts.deltas()[0].ordinal, 6);
}

#[test]
fn a_malformed_amount_fails_the_block_and_leaves_the_stores_alone() {
    let good = DomainEvent::Transfer {
        token: MARKET.to_vec(),
        from: ALICE.to_vec(),
        to: BOB.to_vec(),
        amount: "100".to_string(),
        ordinal: 1,
    };
    let bad = DomainEvent::Transfer {
        token: MARKET.to_vec(),
        from: ALICE.to_vec(),
        to: BOB.to_vec(),
        amount: "1e3".to_string(),
        ordinal: 2,
    };
    let mut stores = Stores::new();
    assert_eq!(stores.accumulate(&vec![good, bad]), Err(Error::MalformedAmount));
    assert_eq!(
        balance(&stores, StoreId::Shares, vec![to_hex(&MARKET), to_hex(&ALICE)]),
        Some("0".to_string())
    );
    assert!(stores.shares.deltas().is_empty());
    let fee = DomainEvent::PositionOpened {
        market: MARKET.to_vec(),
        maturity: "1".to_string(),
        borrower: ALICE.to_vec(),
        principal: "1".to_string(),
        fee: "".to_string(),
        ordinal: 1,
    };
    assert_eq!(plan(&vec![fee]).err(), Some(Error::MalformedAmount));
}

#[test]
fn events_out_of_order_fail_the_block_and_leave_the_stores_alone() {
    let at = |ordinal: u64| DomainEvent::MarketEntered {
        market: MARKET.to_vec(),
        account: ALICE.to_vec(),
        ordinal,
    };
    let mut stores = Stores::new();
    assert_eq!(stores.accumulate(&vec![at(5), at(4)]), Err(Error::OrdinalRegression));
    assert!(stores.enrollment.deltas().is_empty());
    assert_eq!(stores.accumulate(&vec![at(5)]), Ok(()));
    assert_eq!(stores.accumulate(&vec![at(4)]), Err(Error::OrdinalRegression));
    assert_eq!(stores.enrollment.deltas().len(), 1);
    stores.take_deltas();
    assert_eq!(stores.accumulate(&vec![at(4)]), Ok(()));
}

#[test]
fn a_plan_is_applied_change_by_change() {
    let events = vec![
        DomainEvent::MarketEntered { market: MARKET.to_vec(), account: ALICE.to_vec(), ordinal: 2 },
        DomainEvent::AccountInitialized { account: BOB.to_vec(), ordinal: 3 },
        DomainEvent::PluginInstalled { plugin: PLUGIN.to_vec(), account: BOB.to_vec(), ordinal: 4 },
    ];
    let planned = plan(&events).unwrap();
    assert_eq!(planned.len(), 2);
    assert_eq!(planned[0].store, StoreId::Enrollment);
    assert_eq!(planned[0].ordinal, 2);
    assert_eq!(planned[0].key, vec![to_hex(&MARKET), to_hex(&ALICE)]);
    assert_eq!(planned[0].amount.to_decimal(), "1");
    assert_eq!(planned[1].store, StoreId::Accounts);
    assert_eq!(planned[1].key, vec![to_hex(&BOB)]);
    let mut stores = Stores::new();
    assert_eq!(stores.apply_plan(&planned), Ok(()));
    assert_eq!(balance(&stores, StoreId::Accounts, vec![to_hex(&BOB)]), Some("1".to_string()));
    let deltas = stores.take_deltas();
    assert_eq!(deltas.enrollment.len(), 1);
    assert_eq!(deltas.accounts.len(), 1);
    assert!(deltas.enrollment[0].old_value.is_none());
}

#[test]
fn tracked_accounts_replayed_over_alternate_blocks_match_a_fresh_evaluation() {
    let accounts = |list: &[&[u8]]| Accounts { accounts: list.iter().map(|a| a.to_vec()).collect() };
    let common = vec![accounts(&[&ALICE]), accounts(&[])];
    let canonical = vec![accounts(&[&BOB]), accounts(&[&CAROL, &ALICE])];
    let alternate = vec![accounts(&[&CAROL]), accounts(&[]), accounts(&[&PLUGIN])];
    let run = |store: &mut Store, blocks: &Vec<Accounts>| {
        let mut history = Vec::new();
        for block in blocks {
            store_exa_accounts(block, store).unwrap();
            history.extend(store.take_deltas());
        }
        history
    };
    let mut live = Store::new(Policy::Overwrite);
    let kept = run(&mut live, &common);
    run(&mut live, &canonical);
    assert!(live.get_last(&vec![to_hex(&BOB)]).is_some());
    let mut rewound = Store::replay(Policy::Overwrite, &kept);
    run(&mut rewound, &alternate);
    let mut direct = Store::new(Policy::Overwrite);
    run(&mut direct, &common);
    run(&mut direct, &alternate);
    for account in [&ALICE, &BOB, &CAROL, &PLUGIN, &MARKET] {
        let key = vec![to_hex(account)];
        assert_eq!(
            rewound.get_last(&key).map(|value| value.to_decimal()),
            direct.get_last(&key).map(|value| value.to_decimal())
        );
    }
    assert!(rewound.get_last(&vec![to_hex(&BOB)]).is_none());
    assert_eq!(rewound.get_last(&vec![to_hex(&PLUGIN)]).unwrap().to_decimal(), "1");
}

#[test]
fn each_account_has_the_plugins_of_the_logs_that_count() {
    let block = block(vec![
        installed(&ALICE, &PLUGIN, 1),
        installed(&BOB, &PLUGIN, 2),
        installed(&CAROL, &PLUGIN, 3),
        transfer(&ALICE, &BOB, 5, 4),
        installed(&ALICE, &CAROL, 6),
        installed(&BOB, &CAROL, 7),
        installed(&ALICE, &BOB, 8),
        installed(&CAROL, &BOB, 9),
    ]);
    let store = tracking(&[&BOB]);
    let new = Accounts { accounts: vec![ALICE.to_vec()] };
    let found = map_exa_plugins(&block, &new, &store, &decoders()).unwrap();
    let of = |account: &[u8]| found.plugins.iter().filter(|p| p.account == account).count();
    assert_eq!(of(&ALICE), 2);
    assert_eq!(of(&BOB), 2);
    assert_eq!(of(&CAROL), 0);
    assert_eq!(found.plugins.len(), 4);
    assert!(found.plugins.windows(2).all(|pair| pair[0].ordinal < pair[1].ordinal));
    assert_eq!(
        found.plugins,
        vec![
            plugin(&BOB, &PLUGIN, 2),
            plugin(&ALICE, &CAROL, 6),
            plugin(&BOB, &CAROL, 7),
            plugin(&ALICE, &BOB, 8),
        ]
    );
}
