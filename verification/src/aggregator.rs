//! The events of a block.
//!
//! The logs of a block are decoded one by one, in their order, and the events
//! come out in that order; none is moved and none is merged with another. A log
//! of an address with a registered role is decoded under that role. A log of any
//! other address is decoded as that of a market, and the event counts only where
//! the address is tracked.
//!
//! An address is tracked where the store of tracked accounts held 1 for it when
//! the block began. An account that the block itself initialises is not in that
//! store yet, whatever the order of the logs within the block: for such an
//! account the first log that decodes stands for its initialisation and is
//! passed over, and the logs after it count.

use crate::bigint::BigInt;
use crate::decoder::{
    decoded, decoded_by, decoders_of_kind, kind_of, lemma_decoded_event, lemma_decoded_kind,
    lemma_role_exclusive, numbers_decimal, ordinal_of, DecoderModel, DecoderTable, DomainEvent,
    EventKind, EventModel,
};
use crate::encoding::{from_hex, hex_bytes, hex_string, to_hex};
use crate::error::Error;
use crate::registry::{
    copy_bytes, first_place, holds_address, lemma_bytes_view, lemma_rows_view, place_of, role_in,
    role_or_tracked, Registry, Role,
};
use crate::store::{read, Policy, Store};
use crate::types::{Accounts, Block, Factories, LogEntry, LogModel, Plugin, PluginModel, Plugins};
use std::collections::HashSet;
use vstd::prelude::*;

verus! {

/// The key of an account in the store of tracked accounts: its address as
/// hexadecimal text.
pub open spec fn account_key(address: Seq<u8>) -> Seq<Seq<char>> {
    seq![hex_string(address)]
}

/// Whether the store of tracked accounts holds 1 for an address.
pub open spec fn is_tracked(
    policy: Policy,
    state: Map<Seq<Seq<char>>, int>,
    address: Seq<u8>,
) -> bool {
    read(policy, state, account_key(address)) == Some(1int)
}

/// Whether one of the logs comes from the address and decodes as the log of a
/// market.
pub open spec fn seen_before(decoders: Seq<DecoderModel>, logs: Seq<LogModel>, address: Seq<u8>)
    -> bool
    decreases logs.len(),
{
    if logs.len() == 0 {
        false
    } else {
        seen_before(decoders, logs.drop_last(), address) || (logs.last().address == address
            && decoded(decoders, Role::Market, logs.last()) is Some)
    }
}

/// Whether an address without a registered role counts as tracked at a log:
/// an account that the block initialises does once an earlier log of the block
/// decoded for it, any other address where the store holds 1 for it.
pub open spec fn counts_as_tracked(
    decoders: Seq<DecoderModel>,
    fresh: Seq<Seq<u8>>,
    policy: Policy,
    state: Map<Seq<Seq<char>>, int>,
    earlier: Seq<LogModel>,
    address: Seq<u8>,
) -> bool {
    if fresh.contains(address) {
        seen_before(decoders, earlier, address)
    } else {
        is_tracked(policy, state, address)
    }
}

/// The event that a log contributes, if any, given the logs before it: what
/// the decoders of the role of its emitter make of it, where the emitter has a
/// role. An address without a registered role has that of a market where it
/// counts as tracked, and none where it does not.
pub open spec fn log_event(
    roles: Map<Seq<u8>, Role>,
    decoders: Seq<DecoderModel>,
    fresh: Seq<Seq<u8>>,
    policy: Policy,
    state: Map<Seq<Seq<char>>, int>,
    earlier: Seq<LogModel>,
    log: LogModel,
) -> Option<EventModel> {
    let counts = counts_as_tracked(decoders, fresh, policy, state, earlier, log.address);
    match role_or_tracked(role_in(roles, log.address), counts) {
        Some(role) => decoded(decoders, role, log),
        None => None,
    }
}

/// The events of a run of logs, in the order of the logs.
pub open spec fn block_events(
    roles: Map<Seq<u8>, Role>,
    decoders: Seq<DecoderModel>,
    fresh: Seq<Seq<u8>>,
    policy: Policy,
    state: Map<Seq<Seq<char>>, int>,
    logs: Seq<LogModel>,
) -> Seq<EventModel>
    decreases logs.len(),
{
    if logs.len() == 0 {
        Seq::empty()
    } else {
        let before = block_events(roles, decoders, fresh, policy, state, logs.drop_last());
        match log_event(roles, decoders, fresh, policy, state, logs.drop_last(), logs.last()) {
            Some(event) => before.push(event),
            None => before,
        }
    }
}

/// The accounts of the initialisations among a run of events, in order.
pub open spec fn accounts_among(events: Seq<EventModel>) -> Seq<Seq<u8>>
    decreases events.len(),
{
    if events.len() == 0 {
        Seq::empty()
    } else {
        let before = accounts_among(events.drop_last());
        match events.last() {
            EventModel::AccountInitialized { account, .. } => before.push(account),
            _ => before,
        }
    }
}

/// The plugin installations among a run of events, in order.
pub open spec fn plugins_among(events: Seq<EventModel>) -> Seq<PluginModel>
    decreases events.len(),
{
    if events.len() == 0 {
        Seq::empty()
    } else {
        let before = plugins_among(events.drop_last());
        match events.last() {
            EventModel::PluginInstalled { plugin, account, ordinal } => before.push(
                PluginModel { address: plugin, account, ordinal },
            ),
            _ => before,
        }
    }
}

/// The events of one kind among a run of events, in order.
pub open spec fn events_of_kind(events: Seq<EventModel>, kind: EventKind) -> Seq<EventModel>
    decreases events.len(),
{
    if events.len() == 0 {
        Seq::empty()
    } else if kind_of(events.last()) == kind {
        events_of_kind(events.drop_last(), kind).push(events.last())
    } else {
        events_of_kind(events.drop_last(), kind)
    }
}

/// The events of a run of logs that come from one of the given factories,
/// decoded under the factory role.
pub open spec fn factory_events(
    decoders: Seq<DecoderModel>,
    factories: Seq<Seq<u8>>,
    logs: Seq<LogModel>,
) -> Seq<EventModel>
    decreases logs.len(),
{
    if logs.len() == 0 {
        Seq::empty()
    } else {
        let before = factory_events(decoders, factories, logs.drop_last());
        if factories.contains(logs.last().address) {
            match decoded(decoders, Role::Factory, logs.last()) {
                Some(event) => before.push(event),
                None => before,
            }
        } else {
            before
        }
    }
}

/// Whether every text is the hexadecimal text of an address.
pub open spec fn all_hex(texts: Seq<Seq<char>>) -> bool {
    forall|i: int| 0 <= i < texts.len() ==> (#[trigger] texts[i]).len() >= 2 && hex_bytes(
        texts[i],
    ) is Some
}

/// The addresses that hexadecimal texts stand for.
pub open spec fn addresses_of(texts: Seq<Seq<char>>) -> Seq<Seq<u8>> {
    Seq::new(texts.len(), |i: int| hex_bytes(texts[i])->0)
}

/// The accounts of the initialisations among a list of events, in order.
pub fn accounts_of(events: &Vec<DomainEvent>) -> (accounts: Vec<Vec<u8>>)
    ensures
        accounts.deep_view() == accounts_among(events.deep_view()),
{
    let ghost all = events.deep_view();
    let mut accounts: Vec<Vec<u8>> = Vec::new();
    let mut i: usize = 0;
    assert(all.take(0) =~= Seq::<EventModel>::empty());
    assert(accounts.deep_view() =~= Seq::<Seq<u8>>::empty());
    while i < events.len()
        invariant
            i <= events@.len(),
            all == events.deep_view(),
            accounts.deep_view() == accounts_among(all.take(i as int)),
        decreases events@.len() - i,
    {
        proof {
            assert(all.take(i + 1).drop_last() =~= all.take(i as int));
            assert(all.take(i + 1).last() == events@[i as int]@);
        }
        match &events[i] {
            DomainEvent::AccountInitialized { account, .. } => {
                let ghost before = accounts.deep_view();
                let copy = copy_bytes(account.as_slice());
                proof {
                    lemma_bytes_view(copy);
                }
                accounts.push(copy);
                assert(accounts.deep_view() =~= before.push(account@));
            },
            _ => {},
        }
        i = i + 1;
    }
    assert(all.take(events@.len() as int) =~= all);
    accounts
}

/// The events of one kind among a list of events, in order.
pub fn of_kind(events: &Vec<DomainEvent>, kind: EventKind) -> (found: Vec<DomainEvent>)
    ensures
        found.deep_view() == events_of_kind(events.deep_view(), kind),
{
    let ghost all = events.deep_view();
    let mut found: Vec<DomainEvent> = Vec::new();
    let mut i: usize = 0;
    assert(all.take(0) =~= Seq::<EventModel>::empty());
    assert(found.deep_view() =~= Seq::<EventModel>::empty());
    while i < events.len()
        invariant
            i <= events@.len(),
            all == events.deep_view(),
            found.deep_view() == events_of_kind(all.take(i as int), kind),
        decreases events@.len() - i,
    {
        proof {
            assert(all.take(i + 1).drop_last() =~= all.take(i as int));
            assert(all.take(i + 1).last() == events@[i as int]@);
        }
        if events[i].kind() == kind {
            let ghost before = found.deep_view();
            let copy = events[i].duplicate();
            found.push(copy);
            assert(found.deep_view() =~= before.push(copy@));
        }
        i = i + 1;
    }
    assert(all.take(events@.len() as int) =~= all);
    found
}

/// The plugin installations among a list of events, in order.
pub fn plugins_of(events: &Vec<DomainEvent>) -> (plugins: Vec<Plugin>)
    ensures
        plugins.deep_view() == plugins_among(events.deep_view()),
{
    let ghost all = events.deep_view();
    let mut plugins: Vec<Plugin> = Vec::new();
    let mut i: usize = 0;
    assert(all.take(0) =~= Seq::<EventModel>::empty());
    assert(plugins.deep_view() =~= Seq::<PluginModel>::empty());
    while i < events.len()
        invariant
            i <= events@.len(),
            all == events.deep_view(),
            plugins.deep_view() == plugins_among(all.take(i as int)),
        decreases events@.len() - i,
    {
        proof {
            assert(all.take(i + 1).drop_last() =~= all.take(i as int));
            assert(all.take(i + 1).last() == events@[i as int]@);
        }
        match &events[i] {
            DomainEvent::PluginInstalled { plugin, account, ordinal } => {
                let ghost before = plugins.deep_view();
                let installed = Plugin {
                    address: copy_bytes(plugin.as_slice()),
                    account: copy_bytes(account.as_slice()),
                    ordinal: *ordinal,
                };
                plugins.push(installed);
                assert(plugins.deep_view() =~= before.push(installed@));
            },
            _ => {},
        }
        i = i + 1;
    }
    assert(all.take(events@.len() as int) =~= all);
    plugins
}

/// The events of a block come out in the order of its logs: their ordinals
/// strictly increase, none lies above the ordinal of the last log, and their
/// numeric fields are decimal texts.
pub proof fn lemma_events_in_order(
    roles: Map<Seq<u8>, Role>,
    decoders: Seq<DecoderModel>,
    fresh: Seq<Seq<u8>>,
    policy: Policy,
    state: Map<Seq<Seq<char>>, int>,
    logs: Seq<LogModel>,
)
    requires
        forall|i: int, j: int|
            0 <= i < j < logs.len() ==> (#[trigger] logs[i]).ordinal < (#[trigger] logs[j]).ordinal,
    ensures
        forall|i: int|
            0 <= i < block_events(roles, decoders, fresh, policy, state, logs).len()
                ==> numbers_decimal(
                #[trigger] block_events(roles, decoders, fresh, policy, state, logs)[i],
            ),
        forall|i: int, j: int|
            0 <= i < j < block_events(roles, decoders, fresh, policy, state, logs).len()
                ==> ordinal_of(
                #[trigger] block_events(roles, decoders, fresh, policy, state, logs)[i],
            ) < ordinal_of(#[trigger] block_events(roles, decoders, fresh, policy, state, logs)[j]),
        logs.len() > 0 ==> forall|i: int|
            0 <= i < block_events(roles, decoders, fresh, policy, state, logs).len() ==> ordinal_of(
                #[trigger] block_events(roles, decoders, fresh, policy, state, logs)[i],
            ) <= logs.last().ordinal,
    decreases logs.len(),
{
    if logs.len() > 0 {
        let earlier = logs.drop_last();
        let log = logs.last();
        let before = block_events(roles, decoders, fresh, policy, state, earlier);
        let events = block_events(roles, decoders, fresh, policy, state, logs);
        assert forall|i: int, j: int| 0 <= i < j < earlier.len() implies (
        #[trigger] earlier[i]).ordinal < (#[trigger] earlier[j]).ordinal by {
            assert(earlier[i] == logs[i] && earlier[j] == logs[j]);
        }
        lemma_events_in_order(roles, decoders, fresh, policy, state, earlier);
        if earlier.len() > 0 {
            assert(earlier.last() == logs[logs.len() - 2]);
            assert(logs[logs.len() - 2].ordinal < logs[logs.len() - 1].ordinal);
        }
        match role_in(roles, log.address) {
            Some(role) => {
                lemma_decoded_event(decoders, role, log);
            },
            None => {
                lemma_decoded_event(decoders, Role::Market, log);
            },
        }
        match log_event(roles, decoders, fresh, policy, state, earlier, log) {
            Some(event) => {
                assert(events == before.push(event));
                assert(ordinal_of(event) == log.ordinal);
                assert forall|i: int| 0 <= i < events.len() implies numbers_decimal(
                    #[trigger] events[i],
                ) by {
                    if i < before.len() {
                        assert(events[i] == before[i]);
                    }
                }
                assert forall|i: int, j: int| 0 <= i < j < events.len() implies ordinal_of(
                    #[trigger] events[i],
                ) < ordinal_of(#[trigger] events[j]) by {
                    assert(events[i] == before[i]);
                    if j < before.len() {
                        assert(events[j] == before[j]);
                    } else {
                        assert(ordinal_of(before[i]) <= earlier.last().ordinal);
                    }
                }
                assert forall|i: int| 0 <= i < events.len() implies ordinal_of(
                    #[trigger] events[i],
                ) <= log.ordinal by {
                    if i < before.len() {
                        assert(events[i] == before[i]);
                        assert(ordinal_of(before[i]) <= earlier.last().ordinal);
                    }
                }
            },
            None => {
                assert(events == before);
                assert forall|i: int| 0 <= i < events.len() implies ordinal_of(
                    #[trigger] events[i],
                ) <= log.ordinal by {
                    assert(ordinal_of(before[i]) <= earlier.last().ordinal);
                }
            },
        }
    }
}

/// Roles are exclusive: the event of a log whose emitter has a registered role
/// comes from a decoder of that role, whatever the decoders of other roles make
/// of the log, and whether or not the emitter is tracked.
pub proof fn lemma_registered_role_decides(
    roles: Map<Seq<u8>, Role>,
    decoders: Seq<DecoderModel>,
    fresh: Seq<Seq<u8>>,
    policy: Policy,
    state: Map<Seq<Seq<char>>, int>,
    earlier: Seq<LogModel>,
    log: LogModel,
    role: Role,
)
    requires
        role_in(roles, log.address) == Some(role),
    ensures
        log_event(roles, decoders, fresh, policy, state, earlier, log) == decoded(
            decoders,
            role,
            log,
        ),
        log_event(roles, decoders, fresh, policy, state, earlier, log) matches Some(event)
            ==> exists|i: int|
            0 <= i < decoders.len() && (#[trigger] decoders[i]).role == role && decoded_by(
                decoders[i],
                log,
            ) == Some(event),
{
    lemma_role_exclusive(decoders, role, log);
}

/// The number of logs of an address that decode as the logs of a market.
pub open spec fn decoding_logs(decoders: Seq<DecoderModel>, logs: Seq<LogModel>, address: Seq<u8>)
    -> nat
    decreases logs.len(),
{
    if logs.len() == 0 {
        0
    } else {
        decoding_logs(decoders, logs.drop_last(), address) + (if logs.last().address == address
            && decoded(decoders, Role::Market, logs.last()) is Some {
            1nat
        } else {
            0nat
        })
    }
}

/// The number of plugins of a list that were installed on an account.
pub open spec fn installed_on(plugins: Seq<PluginModel>, account: Seq<u8>) -> nat
    decreases plugins.len(),
{
    if plugins.len() == 0 {
        0
    } else {
        installed_on(plugins.drop_last(), account) + (if plugins.last().account == account {
            1nat
        } else {
            0nat
        })
    }
}

/// How many of the logs of an address count, where the address has no
/// registered role: for an account that the block initialises all that decode
/// but the first, for an address that the store tracks all that decode, for any
/// other address none.
pub open spec fn counting_logs(
    decoders: Seq<DecoderModel>,
    fresh: Seq<Seq<u8>>,
    policy: Policy,
    state: Map<Seq<Seq<char>>, int>,
    logs: Seq<LogModel>,
    address: Seq<u8>,
) -> nat {
    let decoding = decoding_logs(decoders, logs, address);
    if fresh.contains(address) {
        if decoding > 0 {
            (decoding - 1) as nat
        } else {
            0
        }
    } else if is_tracked(policy, state, address) {
        decoding
    } else {
        0
    }
}

/// An address was seen before where one of its logs decodes.
proof fn lemma_seen_is_decoding(decoders: Seq<DecoderModel>, logs: Seq<LogModel>, address: Seq<u8>)
    ensures
        seen_before(decoders, logs, address) <==> decoding_logs(decoders, logs, address) > 0,
    decreases logs.len(),
{
    if logs.len() > 0 {
        lemma_seen_is_decoding(decoders, logs.drop_last(), address);
    }
}

/// The plugins that the logs of an account give, where only installations are
/// decoded and no address has a registered role, are as many as the logs of the
/// account that count.
pub proof fn lemma_plugins_counted(
    decoders: Seq<DecoderModel>,
    fresh: Seq<Seq<u8>>,
    policy: Policy,
    state: Map<Seq<Seq<char>>, int>,
    logs: Seq<LogModel>,
    account: Seq<u8>,
)
    ensures
        installed_on(
            plugins_among(
                block_events(
                    Map::empty(),
                    decoders_of_kind(decoders, EventKind::PluginInstalled),
                    fresh,
                    policy,
                    state,
                    logs,
                ),
            ),
            account,
        ) == counting_logs(
            decoders_of_kind(decoders, EventKind::PluginInstalled),
            fresh,
            policy,
            state,
            logs,
            account,
        ),
    decreases logs.len(),
{
    let chosen = decoders_of_kind(decoders, EventKind::PluginInstalled);
    let roles = Map::<Seq<u8>, Role>::empty();
    if logs.len() > 0 {
        let earlier = logs.drop_last();
        let log = logs.last();
        lemma_plugins_counted(decoders, fresh, policy, state, earlier, account);
        lemma_seen_is_decoding(chosen, earlier, account);
        lemma_seen_is_decoding(chosen, earlier, log.address);
        lemma_decoded_kind(decoders, EventKind::PluginInstalled, Role::Market, log);
        let before = block_events(roles, chosen, fresh, policy, state, earlier);
        let events = block_events(roles, chosen, fresh, policy, state, logs);
        match log_event(roles, chosen, fresh, policy, state, earlier, log) {
            Some(event) => {
                assert(events == before.push(event));
                assert(events.drop_last() =~= before);
                assert(event == decoded(chosen, Role::Market, log)->0);
                let plugins = plugins_among(events);
                assert(plugins.drop_last() =~= plugins_among(before));
            },
            None => {
                assert(events == before);
            },
        }
    }
}

/// The plugins among a run of events are no more than the events, and come in
/// the order of the events: where the ordinals of the events strictly increase,
/// so do those of the plugins.
pub proof fn lemma_plugins_in_order(events: Seq<EventModel>)
    requires
        forall|i: int, j: int|
            0 <= i < j < events.len() ==> ordinal_of(#[trigger] events[i]) < ordinal_of(
                #[trigger] events[j],
            ),
    ensures
        plugins_among(events).len() <= events.len(),
        forall|i: int, j: int|
            0 <= i < j < plugins_among(events).len() ==> (#[trigger] plugins_among(
                events,
            )[i]).ordinal < (#[trigger] plugins_among(events)[j]).ordinal,
        events.len() > 0 ==> forall|i: int|
            0 <= i < plugins_among(events).len() ==> (#[trigger] plugins_among(events)[i]).ordinal
                <= ordinal_of(events.last()),
    decreases events.len(),
{
    if events.len() > 0 {
        let init = events.drop_last();
        assert forall|i: int, j: int| 0 <= i < j < init.len() implies ordinal_of(
            #[trigger] init[i],
        ) < ordinal_of(#[trigger] init[j]) by {
            assert(init[i] == events[i] && init[j] == events[j]);
        }
        lemma_plugins_in_order(init);
        let before = plugins_among(init);
        let plugins = plugins_among(events);
        if init.len() > 0 {
            assert(init.last() == events[events.len() - 2]);
            assert(ordinal_of(events[events.len() - 2]) < ordinal_of(events[events.len() - 1]));
        }
        assert forall|i: int| 0 <= i < plugins.len() implies (#[trigger] plugins[i]).ordinal
            <= ordinal_of(events.last()) by {
            if i < before.len() {
                assert(plugins[i] == before[i]);
            }
        }
        assert forall|i: int, j: int| 0 <= i < j < plugins.len() implies (
        #[trigger] plugins[i]).ordinal < (#[trigger] plugins[j]).ordinal by {
            assert(plugins[i] == before[i]);
            if j < before.len() {
                assert(plugins[j] == before[j]);
            }
        }
    }
}

/// The events of a run of logs are no more than the logs.
pub proof fn lemma_events_bounded(
    roles: Map<Seq<u8>, Role>,
    decoders: Seq<DecoderModel>,
    fresh: Seq<Seq<u8>>,
    policy: Policy,
    state: Map<Seq<Seq<char>>, int>,
    logs: Seq<LogModel>,
)
    ensures
        block_events(roles, decoders, fresh, policy, state, logs).len() <= logs.len(),
    decreases logs.len(),
{
    if logs.len() > 0 {
        lemma_events_bounded(roles, decoders, fresh, policy, state, logs.drop_last());
    }
}

/// The accounts that factories initialise in a run of logs are no more than
/// the logs.
proof fn lemma_accounts_bounded(
    decoders: Seq<DecoderModel>,
    factories: Seq<Seq<u8>>,
    logs: Seq<LogModel>,
)
    ensures
        accounts_among(factory_events(decoders, factories, logs)).len() <= factory_events(
            decoders,
            factories,
            logs,
        ).len() <= logs.len(),
    decreases logs.len(),
{
    if logs.len() > 0 {
        lemma_accounts_bounded(decoders, factories, logs.drop_last());
        lemma_accounts_few(factory_events(decoders, factories, logs));
        lemma_accounts_few(factory_events(decoders, factories, logs.drop_last()));
    }
}

/// The accounts among a run of events are no more than the events.
proof fn lemma_accounts_few(events: Seq<EventModel>)
    ensures
        accounts_among(events).len() <= events.len(),
    decreases events.len(),
{
    if events.len() > 0 {
        lemma_accounts_few(events.drop_last());
    }
}

/// The seen-set of a block holds the places of accounts in the list of those
/// that the block initialises. Of the accounts without a registered role it
/// holds the first place of each of which an earlier log decoded, and of these
/// places no other.
spec fn seen_agrees(
    seen: Set<usize>,
    roles: Map<Seq<u8>, Role>,
    decoders: Seq<DecoderModel>,
    fresh: Seq<Seq<u8>>,
    earlier: Seq<LogModel>,
) -> bool {
    forall|place: usize| #[trigger]
        first_place(fresh, place as int) && role_in(roles, fresh[place as int]) is None ==> (
        seen.contains(place) <==> seen_before(decoders, earlier, fresh[place as int]))
}

/// A log that does not decode as the log of a market leaves what was seen
/// before as it was, and so does any log for the addresses other than its own.
proof fn lemma_seen_elsewhere(
    decoders: Seq<DecoderModel>,
    earlier: Seq<LogModel>,
    log: LogModel,
    address: Seq<u8>,
)
    requires
        decoded(decoders, Role::Market, log) is None || log.address != address,
    ensures
        seen_before(decoders, earlier.push(log), address) == seen_before(
            decoders,
            earlier,
            address,
        ),
{
    assert(earlier.push(log).drop_last() =~= earlier);
}

/// A log that decodes as the log of a market makes its address seen.
proof fn lemma_seen_here(decoders: Seq<DecoderModel>, earlier: Seq<LogModel>, log: LogModel)
    requires
        decoded(decoders, Role::Market, log) is Some,
    ensures
        seen_before(decoders, earlier.push(log), log.address),
{
    assert(earlier.push(log).drop_last() =~= earlier);
}

/// Decodes one log of a block and says whether its event counts.
fn event_of_log(
    log: &LogEntry,
    registry: &Registry,
    decoders: &DecoderTable,
    fresh: &Vec<Vec<u8>>,
    accounts: &Store,
    seen: &mut HashSet<usize>,
    Ghost(earlier): Ghost<Seq<LogModel>>,
) -> (event: Option<DomainEvent>)
    requires
        accounts.wf(),
        seen_agrees(old(seen)@, registry@, decoders@, fresh.deep_view(), earlier),
    ensures
        seen_agrees(final(seen)@, registry@, decoders@, fresh.deep_view(), earlier.push(log@)),
        event is Some <==> log_event(
            registry@,
            decoders@,
            fresh.deep_view(),
            accounts.policy_of(),
            accounts.state(),
            earlier,
            log@,
        ) is Some,
        event matches Some(e) ==> e@ == log_event(
            registry@,
            decoders@,
            fresh.deep_view(),
            accounts.policy_of(),
            accounts.state(),
            earlier,
            log@,
        )->0,
{
    let ghost later = earlier.push(log@);
    let ghost before = seen@;
    let ghost listed = fresh.deep_view();
    match registry.role(log.address.as_slice()) {
        Some(role) => {
            proof {
                assert forall|place: usize| #[trigger]
                    first_place(listed, place as int) && role_in(registry@, listed[place as int])
                        is None implies (before.contains(place) <==> seen_before(
                    decoders@,
                    later,
                    listed[place as int],
                )) by {
                    lemma_seen_elsewhere(decoders@, earlier, log@, listed[place as int]);
                }
            }
            decoders.decode(role, log)
        },
        None => {
            let event = decoders.decode(Role::Market, log);
            if event.is_none() {
                proof {
                    assert forall|place: usize| #[trigger]
                        first_place(listed, place as int) && role_in(
                            registry@,
                            listed[place as int],
                        ) is None implies (before.contains(place) <==> seen_before(
                        decoders@,
                        later,
                        listed[place as int],
                    )) by {
                        lemma_seen_elsewhere(decoders@, earlier, log@, listed[place as int]);
                    }
                }
                return None;
            }
            let counts = match place_of(fresh, log.address.as_slice()) {
                Some(here) => {
                    assert(first_place(listed, here as int));
                    let was_seen = !seen.insert(here);
                    proof {
                        let after = seen@;
                        assert(was_seen == seen_before(decoders@, earlier, log@.address));
                        assert forall|place: usize| #[trigger]
                            first_place(listed, place as int) && role_in(
                                registry@,
                                listed[place as int],
                            ) is None implies (after.contains(place) <==> seen_before(
                            decoders@,
                            later,
                            listed[place as int],
                        )) by {
                            if place == here {
                                lemma_seen_here(decoders@, earlier, log@);
                            } else {
                                if place < here {
                                    assert(listed[place as int] != listed[here as int]);
                                } else {
                                    assert(listed[here as int] != listed[place as int]);
                                }
                                lemma_seen_elsewhere(
                                    decoders@,
                                    earlier,
                                    log@,
                                    listed[place as int],
                                );
                            }
                        }
                    }
                    was_seen
                },
                None => {
                    proof {
                        assert forall|place: usize| #[trigger]
                            first_place(listed, place as int) && role_in(
                                registry@,
                                listed[place as int],
                            ) is None implies (before.contains(place) <==> seen_before(
                            decoders@,
                            later,
                            listed[place as int],
                        )) by {
                            assert(listed.contains(listed[place as int]));
                            lemma_seen_elsewhere(decoders@, earlier, log@, listed[place as int]);
                        }
                    }
                    let key = vec![to_hex(log.address.as_slice())];
                    assert(key.deep_view() =~= account_key(log@.address));
                    match accounts.get_last(&key) {
                        Some(value) => value.equals(&BigInt::from_u64(1)),
                        None => false,
                    }
                },
            };
            if counts {
                event
            } else {
                None
            }
        },
    }
}

/// The events of a block, in the order of its logs.
///
/// `fresh` names the accounts that the block itself initialises and `accounts`
/// is the store of tracked accounts as the block found it.
pub fn aggregate(
    block: &Block,
    registry: &Registry,
    decoders: &DecoderTable,
    fresh: &Accounts,
    accounts: &Store,
) -> (events: Vec<DomainEvent>)
    requires
        accounts.wf(),
    ensures
        events.deep_view() == block_events(
            registry@,
            decoders@,
            fresh.accounts.deep_view(),
            accounts.policy_of(),
            accounts.state(),
            block@.logs,
        ),
        forall|i: int, j: int|
            0 <= i < j < events@.len() ==> ordinal_of(#[trigger] events.deep_view()[i])
                < ordinal_of(#[trigger] events.deep_view()[j]),
        forall|i: int| 0 <= i < events@.len() ==> numbers_decimal(#[trigger] events.deep_view()[i]),
{
    let logs = block.logs();
    proof {
        lemma_events_in_order(
            registry@,
            decoders@,
            fresh.accounts.deep_view(),
            accounts.policy_of(),
            accounts.state(),
            block@.logs,
        );
    }
    let ghost all = logs.deep_view();
    let mut events: Vec<DomainEvent> = Vec::new();
    let mut seen: HashSet<usize> = HashSet::new();
    let mut i: usize = 0;
    assert(all.take(0) =~= Seq::<LogModel>::empty());
    assert(events.deep_view() =~= Seq::<EventModel>::empty());
    while i < logs.len()
        invariant
            i <= logs@.len(),
            all == logs.deep_view(),
            accounts.wf(),
            seen_agrees(
                seen@,
                registry@,
                decoders@,
                fresh.accounts.deep_view(),
                all.take(i as int),
            ),
            events.deep_view() == block_events(
                registry@,
                decoders@,
                fresh.accounts.deep_view(),
                accounts.policy_of(),
                accounts.state(),
                all.take(i as int),
            ),
        decreases logs@.len() - i,
    {
        proof {
            assert(all[i as int] == logs@[i as int]@);
            assert(all.take(i + 1) =~= all.take(i as int).push(logs@[i as int]@));
            assert(all.take(i + 1).drop_last() =~= all.take(i as int));
        }
        let ghost before = events.deep_view();
        match event_of_log(
            &logs[i],
            registry,
            decoders,
            &fresh.accounts,
            accounts,
            &mut seen,
            Ghost(all.take(i as int)),
        ) {
            Some(event) => {
                events.push(event);
                assert(events.deep_view() =~= before.push(event@));
            },
            None => {},
        }
        i = i + 1;
    }
    assert(all.take(logs@.len() as int) =~= all);
    events
}

/// The accounts that the factories initialised in a block, in log order.
///
/// The factories are given as hexadecimal texts, with or without a leading
/// `0x`. A text that is no hexadecimal text of at least two characters makes
/// the whole evaluation fail. A log counts where it comes from one of the
/// factories and one of the decoders that the table holds for the
/// initialisation of an account decodes it under the factory role.
pub fn map_exa_accounts(factories: &Factories, block: &Block, decoders: &DecoderTable) -> (r:
    Result<Accounts, Error>)
    ensures
        r is Ok <==> all_hex(factories.factories.deep_view()),
        r matches Ok(found) ==> found.accounts.deep_view() == accounts_among(
            factory_events(
                decoders_of_kind(decoders@, EventKind::AccountInitialized),
                addresses_of(factories.factories.deep_view()),
                block@.logs,
            ),
        ),
        r matches Ok(found) ==> found.accounts@.len() <= block@.logs.len(),
        r matches Err(e) ==> e == Error::MalformedAddress,
{
    proof {
        lemma_accounts_bounded(
            decoders_of_kind(decoders@, EventKind::AccountInitialized),
            addresses_of(factories.factories.deep_view()),
            block@.logs,
        );
    }
    let decoders = &decoders.of_kind(EventKind::AccountInitialized);
    let ghost texts = factories.factories.deep_view();
    let mut addresses: Vec<Vec<u8>> = Vec::new();
    let mut i: usize = 0;
    while i < factories.factories.len()
        invariant
            i <= factories.factories@.len(),
            texts == factories.factories.deep_view(),
            addresses@.len() == i,
            forall|k: int|
                0 <= k < i ==> (#[trigger] texts[k]).len() >= 2 && hex_bytes(texts[k]) is Some,
            forall|k: int| 0 <= k < i ==> #[trigger] addresses@[k]@ == hex_bytes(texts[k])->0,
        decreases factories.factories@.len() - i,
    {
        assert(texts[i as int] == factories.factories@[i as int]@);
        match from_hex(factories.factories[i].as_str()) {
            Some(address) => {
                addresses.push(address);
            },
            None => {
                return Err(Error::MalformedAddress);
            },
        }
        i = i + 1;
    }
    proof {
        lemma_rows_view(addresses);
        assert(addresses.deep_view() =~= addresses_of(texts));
    }
    let logs = block.logs();
    let ghost all = logs.deep_view();
    let mut events: Vec<DomainEvent> = Vec::new();
    let mut i: usize = 0;
    assert(all.take(0) =~= Seq::<LogModel>::empty());
    assert(events.deep_view() =~= Seq::<EventModel>::empty());
    while i < logs.len()
        invariant
            i <= logs@.len(),
            all == logs.deep_view(),
            events.deep_view() == factory_events(
                decoders@,
                addresses.deep_view(),
                all.take(i as int),
            ),
        decreases logs@.len() - i,
    {
        proof {
            assert(all[i as int] == logs@[i as int]@);
            assert(all.take(i + 1).drop_last() =~= all.take(i as int));
            assert(all.take(i + 1).last() == logs@[i as int]@);
        }
        if holds_address(&addresses, logs[i].address.as_slice()) {
            let ghost before = events.deep_view();
            match decoders.decode(Role::Factory, &logs[i]) {
                Some(event) => {
                    events.push(event);
                    assert(events.deep_view() =~= before.push(event@));
                },
                None => {},
            }
        }
        i = i + 1;
    }
    assert(all.take(logs@.len() as int) =~= all);
    Ok(Accounts { accounts: accounts_of(&events) })
}

/// The plugins that tracked accounts installed in a block, in log order.
///
/// `new` names the accounts that the block itself initialises and `accounts`
/// is the store of tracked accounts as the block found it. No address has a
/// registered role here, and only the decoders that the table holds for the
/// installation of a plugin are tried: every log is decoded as that of a
/// market, and an installation counts where its account is tracked. The
/// evaluation does not fail.
pub fn map_exa_plugins(
    block: &Block,
    new: &Accounts,
    accounts: &Store,
    decoders: &DecoderTable,
) -> (r: Result<Plugins, Error>)
    requires
        accounts.wf(),
    ensures
        r matches Ok(found) && found.plugins.deep_view() == plugins_among(
            block_events(
                Map::empty(),
                decoders_of_kind(decoders@, EventKind::PluginInstalled),
                new.accounts.deep_view(),
                accounts.policy_of(),
                accounts.state(),
                block@.logs,
            ),
        ),
        r matches Ok(found) ==> found.plugins@.len() <= block@.logs.len(),
        r matches Ok(found) ==> forall|i: int, j: int|
            0 <= i < j < found.plugins@.len() ==> (#[trigger] found.plugins.deep_view()[i]).ordinal
                < (#[trigger] found.plugins.deep_view()[j]).ordinal,
        r matches Ok(found) ==> forall|account: Seq<u8>|
            #[trigger] installed_on(found.plugins.deep_view(), account) == counting_logs(
                decoders_of_kind(decoders@, EventKind::PluginInstalled),
                new.accounts.deep_view(),
                accounts.policy_of(),
                accounts.state(),
                block@.logs,
                account,
            ),
{
    proof {
        let chosen = decoders_of_kind(decoders@, EventKind::PluginInstalled);
        let events = block_events(
            Map::empty(),
            chosen,
            new.accounts.deep_view(),
            accounts.policy_of(),
            accounts.state(),
            block@.logs,
        );
        lemma_events_bounded(
            Map::empty(),
            chosen,
            new.accounts.deep_view(),
            accounts.policy_of(),
            accounts.state(),
            block@.logs,
        );
        assert forall|account: Seq<u8>| #[trigger]
            installed_on(plugins_among(events), account) == counting_logs(
                chosen,
                new.accounts.deep_view(),
                accounts.policy_of(),
                accounts.state(),
                block@.logs,
                account,
            ) by {
            lemma_plugins_counted(
                decoders@,
                new.accounts.deep_view(),
                accounts.policy_of(),
                accounts.state(),
                block@.logs,
                account,
            );
        }
    }
    let registry = Registry::new();
    let decoders = &decoders.of_kind(EventKind::PluginInstalled);
    let events = aggregate(block, &registry, decoders, new, accounts);
    proof {
        lemma_plugins_in_order(events.deep_view());
    }
    Ok(Plugins { plugins: plugins_of(&events) })
}

} // verus!
