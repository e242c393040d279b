use exa_substreams::decoder::{Decoder, DecoderTable, DomainEvent, EventKind, FieldSource};
use exa_substreams::error::Error;
use exa_substreams::registry::{copy_bytes, holds_address, same_bytes, Deployment, Registry, Role};
use exa_substreams::types::LogEntry;

const MARKET: [u8; 20] = [0x11; 20];
const ALICE: [u8; 20] = [0xaa; 20];
const BOB: [u8; 20] = [0xbb; 20];

fn signature(tag: u8) -> Vec<u8> {
    vec![tag; 32]
}

fn topic(address: &[u8]) -> Vec<u8> {
    let mut word = vec![0u8; 12];
    word.extend_from_slice(address);
    word
}

fn word(value: u64) -> Vec<u8> {
    let mut word = vec![0u8; 24];
    word.extend_from_slice(&value.to_be_bytes());
    word
}

fn transfer_decoder(role: Role, tag: u8) -> Decoder {
    Decoder {
        role,
        kind: EventKind::Transfer,
        signature: signature(tag),
        topic_count: 3,
        data_length: 32,
        exact_length: true,
        sources: vec![FieldSource::Topic(1), FieldSource::Topic(2), FieldSource::Word(0)],
    }
}

fn entered_decoder(role: Role, tag: u8) -> Decoder {
    Decoder {
        role,
        kind: EventKind::MarketEntered,
        signature: signature(tag),
        topic_count: 3,
        data_length: 0,
        exact_length: false,
        sources: vec![FieldSource::Topic(1), FieldSource::Topic(2)],
    }
}

fn transfer_log(from: &[u8], to: &[u8], amount: u64, ordinal: u64) -> LogEntry {
    LogEntry {
        address: MARKET.to_vec(),
        topics: vec![signature(1), topic(from), topic(to)],
        data: word(amount),
        ordinal,
    }
}

#[test]
fn a_registry_gives_each_address_its_role() {
    let mut registry = Registry::new();
    assert_eq!(registry.role(&MARKET), None);
    assert_eq!(registry.register(&MARKET, Role::Market), Ok(()));
    assert_eq!(registry.register(&ALICE, Role::Auditor), Ok(()));
    assert_eq!(registry.role(&MARKET), Some(Role::Market));
    assert_eq!(registry.role(&ALICE), Some(Role::Auditor));
    assert_eq!(registry.role(&BOB), None);
}

#[test]
fn an_address_keeps_one_role() {
    let mut registry = Registry::new();
    registry.register(&MARKET, Role::Market).unwrap();
    assert_eq!(registry.register(&MARKET, Role::Market), Ok(()));
    assert_eq!(registry.register(&MARKET, Role::Auditor), Err(Error::RoleConflict));
    assert_eq!(registry.role(&MARKET), Some(Role::Market));
}

#[test]
fn a_tracked_address_without_a_role_counts_as_a_market() {
    let mut registry = Registry::new();
    registry.register(&ALICE, Role::Oracle).unwrap();
    assert_eq!(registry.role_with(&BOB, true), Some(Role::Market));
    assert_eq!(registry.role_with(&BOB, false), None);
    assert_eq!(registry.role_with(&ALICE, true), Some(Role::Oracle));
    assert_eq!(registry.role_with(&ALICE, false), Some(Role::Oracle));
}

#[test]
fn byte_strings_are_compared_and_copied() {
    assert!(same_bytes(&ALICE, &ALICE));
    assert!(!same_bytes(&ALICE, &BOB));
    assert!(!same_bytes(&ALICE, &ALICE[..19]));
    assert_eq!(copy_bytes(&ALICE), ALICE.to_vec());
    let list = vec![ALICE.to_vec(), BOB.to_vec()];
    assert!(holds_address(&list, &BOB));
    assert!(!holds_address(&list, &MARKET));
}

#[test]
fn a_transfer_is_decoded_from_its_topics_and_payload() {
    let decoder = transfer_decoder(Role::Market, 1);
    let log = transfer_log(&ALICE, &BOB, 500, 3);
    assert!(decoder.fits(&log));
    assert_eq!(
        decoder.decode(&log),
        Some(DomainEvent::Transfer {
            token: MARKET.to_vec(),
            from: ALICE.to_vec(),
            to: BOB.to_vec(),
            amount: "500".to_string(),
            ordinal: 3,
        })
    );
}

#[test]
fn an_amount_keeps_all_its_digits() {
    let decoder = transfer_decoder(Role::Market, 1);
    let mut log = transfer_log(&ALICE, &BOB, 0, 3);
    log.data = vec![0xff; 32];
    match decoder.decode(&log) {
        Some(DomainEvent::Transfer { amount, .. }) => assert_eq!(
            amount,
            "115792089237316195423570985008687907853269984665640564039457584007913129639935"
        ),
        other => panic!("no transfer: {:?}", other),
    }
    log.data = vec![0; 32];
    match decoder.decode(&log) {
        Some(DomainEvent::Transfer { amount, .. }) => assert_eq!(amount, "0"),
        other => panic!("no transfer: {:?}", other),
    }
}

#[test]
fn an_address_is_the_last_twenty_bytes_of_its_word() {
    let decoder = transfer_decoder(Role::Market, 1);
    let mut log = transfer_log(&ALICE, &BOB, 1, 3);
    log.topics[1] = vec![0xee; 32];
    match decoder.decode(&log) {
        Some(DomainEvent::Transfer { from, .. }) => assert_eq!(from, vec![0xee; 20]),
        other => panic!("no transfer: {:?}", other),
    }
}

#[test]
fn a_log_of_another_shape_is_dropped() {
    let decoder = transfer_decoder(Role::Market, 1);
    let good = transfer_log(&ALICE, &BOB, 500, 3);
    let mut other_signature = transfer_log(&ALICE, &BOB, 500, 3);
    other_signature.topics[0] = signature(2);
    let mut fewer_topics = transfer_log(&ALICE, &BOB, 500, 3);
    fewer_topics.topics.pop();
    let mut longer_payload = transfer_log(&ALICE, &BOB, 500, 3);
    longer_payload.data.push(0);
    let mut no_topics = transfer_log(&ALICE, &BOB, 500, 3);
    no_topics.topics.clear();
    let mut short_topic = transfer_log(&ALICE, &BOB, 500, 3);
    short_topic.topics[2] = vec![0xbb; 20];
    assert!(decoder.decode(&good).is_some());
    assert_eq!(decoder.decode(&other_signature), None);
    assert_eq!(decoder.decode(&fewer_topics), None);
    assert_eq!(decoder.decode(&longer_payload), None);
    assert_eq!(decoder.decode(&no_topics), None);
    assert!(decoder.fits(&short_topic));
    assert_eq!(decoder.decode(&short_topic), None);
}

#[test]
fn a_payload_may_be_longer_where_the_shape_allows_it() {
    let decoder = Decoder {
        role: Role::Market,
        kind: EventKind::PluginInstalled,
        signature: signature(7),
        topic_count: 2,
        data_length: 96,
        exact_length: false,
        sources: vec![FieldSource::Topic(1)],
    };
    let mut log = LogEntry {
        address: ALICE.to_vec(),
        topics: vec![signature(7), topic(&BOB)],
        data: vec![0; 96],
        ordinal: 9,
    };
    let expected = Some(DomainEvent::PluginInstalled {
        plugin: BOB.to_vec(),
        account: ALICE.to_vec(),
        ordinal: 9,
    });
    assert_eq!(decoder.decode(&log), expected);
    log.data = vec![0; 160];
    assert_eq!(decoder.decode(&log), expected);
    log.data = vec![0; 95];
    assert_eq!(decoder.decode(&log), None);
}

#[test]
fn fields_are_read_from_payload_words_too() {
    let decoder = Decoder {
        role: Role::Market,
        kind: EventKind::PositionOpened,
        signature: signature(3),
        topic_count: 3,
        data_length: 96,
        exact_length: true,
        sources: vec![
            FieldSource::Topic(1),
            FieldSource::Topic(2),
            FieldSource::Word(1),
            FieldSource::Word(2),
        ],
    };
    let mut data = topic(&BOB);
    data.extend(word(1_000));
    data.extend(word(25));
    let log = LogEntry {
        address: MARKET.to_vec(),
        topics: vec![signature(3), word(1_700_000_000), topic(&ALICE)],
        data,
        ordinal: 12,
    };
    assert_eq!(
        decoder.decode(&log),
        Some(DomainEvent::PositionOpened {
            market: MARKET.to_vec(),
            maturity: "1700000000".to_string(),
            borrower: ALICE.to_vec(),
            principal: "1000".to_string(),
            fee: "25".to_string(),
            ordinal: 12,
        })
    );
}

#[test]
fn a_decoder_must_name_its_sources_within_its_shape() {
    assert!(transfer_decoder(Role::Market, 1).is_sound());
    let mut too_few = transfer_decoder(Role::Market, 1);
    too_few.sources.pop();
    assert!(!too_few.is_sound());
    let mut signature_as_field = transfer_decoder(Role::Market, 1);
    signature_as_field.sources[0] = FieldSource::Topic(0);
    assert!(!signature_as_field.is_sound());
    let mut topic_outside = transfer_decoder(Role::Market, 1);
    topic_outside.sources[1] = FieldSource::Topic(3);
    assert!(!topic_outside.is_sound());
    let mut word_outside = transfer_decoder(Role::Market, 1);
    word_outside.sources[2] = FieldSource::Word(1);
    assert!(!word_outside.is_sound());
    let mut table = DecoderTable::new();
    assert_eq!(table.register(word_outside), Err(Error::MalformedDecoder));
    assert_eq!(table.register(transfer_decoder(Role::Market, 1)), Ok(()));
}

#[test]
fn a_log_is_decoded_by_the_decoders_of_its_role_only() {
    let mut table = DecoderTable::new();
    table.register(entered_decoder(Role::Auditor, 1)).unwrap();
    table.register(transfer_decoder(Role::Market, 1)).unwrap();
    let log = transfer_log(&ALICE, &BOB, 500, 3);
    match table.decode(Role::Market, &log) {
        Some(DomainEvent::Transfer { amount, .. }) => assert_eq!(amount, "500"),
        other => panic!("no transfer: {:?}", other),
    }
    match table.decode(Role::Auditor, &log) {
        Some(DomainEvent::MarketEntered { market, account, ordinal }) => {
            assert_eq!(market, ALICE.to_vec());
            assert_eq!(account, BOB.to_vec());
            assert_eq!(ordinal, 3);
        },
        other => panic!("no enrolment: {:?}", other),
    }
    assert_eq!(table.decode(Role::Factory, &log), None);
}

#[test]
fn a_market_is_never_read_by_an_auditor_decoder_with_the_same_signature() {
    let mut table = DecoderTable::new();
    table.register(entered_decoder(Role::Auditor, 1)).unwrap();
    let log = transfer_log(&ALICE, &BOB, 500, 3);
    let mut registry = Registry::new();
    registry.register(&MARKET, Role::Market).unwrap();
    let role = registry.role(&log.address).unwrap();
    assert_eq!(role, Role::Market);
    assert_eq!(table.decode(role, &log), None);
    assert!(table.decode(Role::Auditor, &log).is_some());
}

#[test]
fn the_first_decoder_that_decodes_wins() {
    let mut table = DecoderTable::new();
    table.register(transfer_decoder(Role::Market, 2)).unwrap();
    table.register(entered_decoder(Role::Market, 1)).unwrap();
    table.register(transfer_decoder(Role::Market, 1)).unwrap();
    let log = transfer_log(&ALICE, &BOB, 500, 3);
    assert_eq!(table.decode(Role::Market, &log).unwrap().kind(), EventKind::MarketEntered);
    assert_eq!(table.decode(Role::Market, &log).unwrap().ordinal(), 3);
}

fn deployment() -> Deployment {
    Deployment {
        markets: vec![MARKET.to_vec(), vec![0x12; 20]],
        auditors: vec![vec![0xad; 20]],
        factories: vec![vec![0xfa; 20], vec![0xfa; 20]],
        plugins: vec![],
        proposal_managers: vec![vec![0x33; 20]],
        oracles: vec![vec![0x44; 20]],
    }
}

#[test]
fn a_deployment_gives_every_listed_address_its_role() {
    let registry = Registry::from_deployment(&deployment()).unwrap();
    assert_eq!(registry.role(&MARKET), Some(Role::Market));
    assert_eq!(registry.role(&[0x12; 20]), Some(Role::Market));
    assert_eq!(registry.role(&[0xad; 20]), Some(Role::Auditor));
    assert_eq!(registry.role(&[0xfa; 20]), Some(Role::Factory));
    assert_eq!(registry.role(&[0x33; 20]), Some(Role::ProposalManager));
    assert_eq!(registry.role(&[0x44; 20]), Some(Role::Oracle));
    assert_eq!(registry.role(&ALICE), None);
}

#[test]
fn a_deployment_that_lists_an_address_under_two_roles_is_refused() {
    let mut twice = deployment();
    twice.oracles.push(MARKET.to_vec());
    assert_eq!(Registry::from_deployment(&twice).err(), Some(Error::RoleConflict));
    let mut plugin = deployment();
    plugin.plugins.push(vec![0xad; 20]);
    assert_eq!(Registry::from_deployment(&plugin).err(), Some(Error::RoleConflict));
}

#[test]
fn a_table_gives_the_decoders_of_one_kind() {
    let mut table = DecoderTable::new();
    table.register(transfer_decoder(Role::Market, 1)).unwrap();
    table.register(entered_decoder(Role::Market, 1)).unwrap();
    let log = transfer_log(&ALICE, &BOB, 500, 3);
    assert_eq!(table.decode(Role::Market, &log).unwrap().kind(), EventKind::Transfer);
    let entered = table.of_kind(EventKind::MarketEntered);
    assert_eq!(entered.decode(Role::Market, &log).unwrap().kind(), EventKind::MarketEntered);
    assert_eq!(table.of_kind(EventKind::PluginInstalled).decode(Role::Market, &log), None);
    let copy = transfer_decoder(Role::Market, 1).duplicate();
    assert_eq!(copy, transfer_decoder(Role::Market, 1));
}

#[test]
fn an_event_is_copied_field_by_field() {
    let event = DomainEvent::PositionClosed {
        market: MARKET.to_vec(),
        maturity: "1700000000".to_string(),
        borrower: ALICE.to_vec(),
        principal: "400".to_string(),
        ordinal: 9,
    };
    assert_eq!(event.duplicate(), event);
    assert_eq!(event.kind(), EventKind::PositionClosed);
    assert_eq!(event.ordinal(), 9);
}
