//! One block from end to end: decode, aggregate, accumulate, emit.
//!
//! Every stage is a function of its inputs. The stores are the only state that
//! outlives a block, and a block that fails leaves them as it found them.

use crate::accumulate::{
    amounts_ok, changes_for, event_changes, plan, plan_in_order, planned_changes, policy_for,
    BlockDeltas, Planned, PlannedModel, StoreId, Stores,
};
use crate::aggregator::{accounts_among, accounts_of, aggregate, block_events};
use crate::changeset::{
    block_operations, block_sheet, change_rows, emit, events_operations, key_names, keys_shaped,
    one_row_each, RowModel,
};
use crate::decoder::{
    numbers_decimal, ordinal_of, DecoderModel, DecoderTable, DomainEvent, EventModel,
};
use crate::error::Error;
use crate::registry::{Registry, Role};
use crate::store::{
    lemma_delta_at, lemma_deltas_len, run, run_deltas, Change, DeltaModel, Policy,
};
use crate::types::{Accounts, Block, BlockModel, Clock, LogModel};
use substreams_database_change::pb::sf::substreams::sink::database::v1::DatabaseChanges;
use vstd::prelude::*;

verus! {

/// The roles and the decoders of a deployment.
pub struct Pipeline {
    pub registry: Registry,
    pub decoders: DecoderTable,
}

/// What the evaluation of one block hands out.
pub struct BlockOutput {
    /// The events of the block, in log order.
    pub events: Vec<DomainEvent>,
    /// The deltas that the events caused, store by store.
    pub deltas: BlockDeltas,
    /// The row mutations for the sink.
    pub changes: DatabaseChanges,
}

/// The states of the four stores.
pub struct States {
    pub shares: Map<Seq<Seq<char>>, int>,
    pub positions: Map<Seq<Seq<char>>, int>,
    pub enrollment: Map<Seq<Seq<char>>, int>,
    pub accounts: Map<Seq<Seq<char>>, int>,
}

/// What the evaluation of one block comes to: the events, the deltas of each
/// store, the rows of the changeset, and the states that the stores are left
/// in.
pub struct Outcome {
    pub events: Seq<EventModel>,
    pub shares: Seq<DeltaModel>,
    pub positions: Seq<DeltaModel>,
    pub enrollment: Seq<DeltaModel>,
    pub accounts: Seq<DeltaModel>,
    pub rows: Seq<RowModel>,
    pub states: States,
}

/// The states of four stores.
pub open spec fn states_of(stores: Stores) -> States {
    States {
        shares: stores.shares.state(),
        positions: stores.positions.state(),
        enrollment: stores.enrollment.state(),
        accounts: stores.accounts.state(),
    }
}

/// The events of a block. The accounts that the block initialises are found
/// first; with them the events are read off the logs.
pub open spec fn pipeline_events(
    roles: Map<Seq<u8>, Role>,
    decoders: Seq<DecoderModel>,
    accounts: Map<Seq<Seq<char>>, int>,
    logs: Seq<LogModel>,
) -> Seq<EventModel> {
    let fresh = accounts_among(
        block_events(roles, decoders, Seq::empty(), Policy::Overwrite, accounts, logs),
    );
    block_events(roles, decoders, fresh, Policy::Overwrite, accounts, logs)
}

/// What a block comes to once its events are known: the deltas that the
/// events cause in stores of the given states, the rows of the changeset, and
/// the states that the stores are left in.
pub open spec fn events_outcome(events: Seq<EventModel>, states: States, clock: Clock) -> Outcome {
    let plan = planned_changes(events);
    let shares = changes_for(StoreId::Shares, plan);
    let positions = changes_for(StoreId::Positions, plan);
    let enrollment = changes_for(StoreId::Enrollment, plan);
    let accounts = changes_for(StoreId::Accounts, plan);
    Outcome {
        events,
        shares: run_deltas(Policy::Add, states.shares, shares),
        positions: run_deltas(Policy::Add, states.positions, positions),
        enrollment: run_deltas(Policy::Overwrite, states.enrollment, enrollment),
        accounts: run_deltas(Policy::Overwrite, states.accounts, accounts),
        rows: block_sheet(
            clock,
            events,
            run_deltas(Policy::Add, states.shares, shares),
            run_deltas(Policy::Add, states.positions, positions),
            run_deltas(Policy::Overwrite, states.enrollment, enrollment),
            run_deltas(Policy::Overwrite, states.accounts, accounts),
        ).rows,
        states: States {
            shares: run(Policy::Add, states.shares, shares),
            positions: run(Policy::Add, states.positions, positions),
            enrollment: run(Policy::Overwrite, states.enrollment, enrollment),
            accounts: run(Policy::Overwrite, states.accounts, accounts),
        },
    }
}

/// What the evaluation of a block comes to, given the roles, the decoders and
/// the states that the stores are in.
pub open spec fn block_outcome(
    roles: Map<Seq<u8>, Role>,
    decoders: Seq<DecoderModel>,
    states: States,
    block: BlockModel,
) -> Outcome {
    events_outcome(
        pipeline_events(roles, decoders, states.accounts, block.logs),
        states,
        Clock { number: block.number, timestamp: Some(block.timestamp) },
    )
}

/// The number of row operations that the changeset of a block takes.
pub open spec fn outcome_operations(outcome: Outcome) -> int {
    block_operations(
        outcome.events,
        outcome.shares.len(),
        outcome.positions.len(),
        outcome.enrollment.len(),
        outcome.accounts.len(),
    )
}

/// Whether a result and the states that the stores are left in are those of
/// the evaluation of a block: the evaluation succeeds where the changeset can be
/// numbered and then hands out the events, the deltas and the changeset that the
/// block comes to and leaves the stores in the states it comes to; where it
/// fails, the states are those it found.
pub open spec fn evaluated(
    roles: Map<Seq<u8>, Role>,
    decoders: Seq<DecoderModel>,
    states: States,
    block: BlockModel,
    result: Result<BlockOutput, Error>,
    after: States,
) -> bool {
    reached(block_outcome(roles, decoders, states, block), states, result, after)
}

/// Whether a result and the states that the stores are left in are those of an
/// outcome that was to be reached from the given states.
pub open spec fn reached(
    outcome: Outcome,
    states: States,
    result: Result<BlockOutput, Error>,
    after: States,
) -> bool {
    &&& result is Ok <==> outcome_operations(outcome) <= u64::MAX
    &&& result matches Ok(output) ==> {
        &&& output.events.deep_view() == outcome.events
        &&& output.deltas.of(StoreId::Shares) == outcome.shares
        &&& output.deltas.of(StoreId::Positions) == outcome.positions
        &&& output.deltas.of(StoreId::Enrollment) == outcome.enrollment
        &&& output.deltas.of(StoreId::Accounts) == outcome.accounts
        &&& change_rows(output.changes) == outcome.rows
        &&& after == outcome.states
    }
    &&& result matches Err(e) ==> e == Error::TooManyRows && after == states
}

/// Every change that an event asks for carries the ordinal of the event and a
/// key with one segment for each key column of its store.
proof fn lemma_event_changes(event: EventModel)
    ensures
        forall|k: int|
            0 <= k < event_changes(event).len() ==> (#[trigger] event_changes(
                event,
            )[k]).change.ordinal == ordinal_of(event) && event_changes(event)[k].change.key.len()
                == key_names(event_changes(event)[k].store).len(),
{
}

/// The changes of a run of events whose ordinals never fall are in order, none
/// lies above the ordinal of the last event, and each has a key with one
/// segment for each key column of its store.
proof fn lemma_plan(events: Seq<EventModel>)
    requires
        forall|i: int, j: int|
            0 <= i <= j < events.len() ==> ordinal_of(#[trigger] events[i]) <= ordinal_of(
                #[trigger] events[j],
            ),
    ensures
        plan_in_order(planned_changes(events)),
        forall|k: int|
            0 <= k < planned_changes(events).len() ==> (#[trigger] planned_changes(
                events,
            )[k]).change.key.len() == key_names(planned_changes(events)[k].store).len(),
        events.len() > 0 ==> forall|k: int|
            0 <= k < planned_changes(events).len() ==> (#[trigger] planned_changes(
                events,
            )[k]).change.ordinal <= ordinal_of(events.last()),
    decreases events.len(),
{
    if events.len() > 0 {
        let init = events.drop_last();
        let last = events.last();
        let before = planned_changes(init);
        let added = event_changes(last);
        let plan = planned_changes(events);
        assert(plan == before + added);
        assert forall|i: int, j: int| 0 <= i <= j < init.len() implies ordinal_of(
            #[trigger] init[i],
        ) <= ordinal_of(#[trigger] init[j]) by {
            assert(init[i] == events[i] && init[j] == events[j]);
        }
        lemma_plan(init);
        lemma_event_changes(last);
        if init.len() > 0 {
            assert(init.last() == events[events.len() - 2]);
            assert(ordinal_of(events[events.len() - 2]) <= ordinal_of(events[events.len() - 1]));
        }
        assert forall|k: int| 0 <= k < plan.len() implies (#[trigger] plan[k]).change.ordinal
            <= ordinal_of(last) && plan[k].change.key.len() == key_names(plan[k].store).len() by {
            if k < before.len() {
                assert(plan[k] == before[k]);
            } else {
                assert(plan[k] == added[k - before.len()]);
            }
        }
        assert forall|i: int, j: int| 0 <= i <= j < plan.len() implies (
        #[trigger] plan[i]).change.ordinal <= (#[trigger] plan[j]).change.ordinal by {
            if j < before.len() {
                assert(plan[i] == before[i] && plan[j] == before[j]);
            } else {
                assert(plan[j] == added[j - before.len()]);
                if i < before.len() {
                    assert(plan[i] == before[i]);
                } else {
                    assert(plan[i] == added[i - before.len()]);
                }
            }
        }
    }
}

/// A plan is split among the four stores: every change goes to one of them,
/// and a change keeps its key.
proof fn lemma_partition(plan: Seq<PlannedModel>)
    requires
        forall|k: int|
            0 <= k < plan.len() ==> (#[trigger] plan[k]).change.key.len() == key_names(
                plan[k].store,
            ).len(),
    ensures
        changes_for(StoreId::Shares, plan).len() + changes_for(StoreId::Positions, plan).len()
            + changes_for(StoreId::Enrollment, plan).len() + changes_for(
            StoreId::Accounts,
            plan,
        ).len() == plan.len(),
        forall|id: StoreId, k: int|
            0 <= k < changes_for(id, plan).len() ==> (#[trigger] changes_for(id, plan)[k]).key.len()
                == key_names(id).len(),
    decreases plan.len(),
{
    if plan.len() > 0 {
        let init = plan.drop_last();
        assert forall|k: int| 0 <= k < init.len() implies (#[trigger] init[k]).change.key.len()
            == key_names(init[k].store).len() by {
            assert(init[k] == plan[k]);
        }
        lemma_partition(init);
        assert(plan.last() == plan[plan.len() - 1]);
        assert forall|id: StoreId, k: int| 0 <= k < changes_for(id, plan).len() implies (
        #[trigger] changes_for(id, plan)[k]).key.len() == key_names(id).len() by {
            if k < changes_for(id, init).len() {
                assert(changes_for(id, plan)[k] == changes_for(id, init)[k]);
            }
        }
    }
}

/// The deltas of a run keep the keys of its changes.
proof fn lemma_deltas_shaped(
    id: StoreId,
    state: Map<Seq<Seq<char>>, int>,
    changes: Seq<Change>,
)
    requires
        forall|k: int|
            0 <= k < changes.len() ==> (#[trigger] changes[k]).key.len() == key_names(id).len(),
    ensures
        run_deltas(policy_for(id), state, changes).len() == changes.len(),
        keys_shaped(id, run_deltas(policy_for(id), state, changes)),
{
    let deltas = run_deltas(policy_for(id), state, changes);
    lemma_deltas_len(policy_for(id), state, changes);
    assert forall|k: int| 0 <= k < deltas.len() implies (#[trigger] deltas[k]).key.len()
        == key_names(id).len() by {
        lemma_delta_at(policy_for(id), state, changes, k);
        assert(changes[k].key.len() == key_names(id).len());
    }
}

/// Evaluation is deterministic. Two evaluations of one block, under the same
/// roles and decoders and on stores in the same states, both succeed or both
/// fail; where they succeed they hand out the same events, the same deltas and
/// the same rows of the changeset, and either way they leave the stores in the
/// same states. The rows are the same in their order, tables, keys, operations,
/// ordinals and in what they hold for each column name; the order in which a
/// row lists its fields is left open.
pub proof fn lemma_deterministic(
    roles: Map<Seq<u8>, Role>,
    decoders: Seq<DecoderModel>,
    states: States,
    block: BlockModel,
    first: Result<BlockOutput, Error>,
    first_after: States,
    second: Result<BlockOutput, Error>,
    second_after: States,
)
    requires
        evaluated(roles, decoders, states, block, first, first_after),
        evaluated(roles, decoders, states, block, second, second_after),
    ensures
        first is Ok <==> second is Ok,
        first_after == second_after,
        first matches Ok(one) ==> second matches Ok(other) && one.events.deep_view()
            == other.events.deep_view() && one.deltas.of(StoreId::Shares) == other.deltas.of(
            StoreId::Shares,
        ) && one.deltas.of(StoreId::Positions) == other.deltas.of(StoreId::Positions)
            && one.deltas.of(StoreId::Enrollment) == other.deltas.of(StoreId::Enrollment)
            && one.deltas.of(StoreId::Accounts) == other.deltas.of(StoreId::Accounts)
            && change_rows(one.changes) == change_rows(other.changes),
        first matches Err(one) ==> second matches Err(other) && one == other,
{
}

/// How many changes of a plan go to each store: to the shares, the positions,
/// the enrolment and the tracked accounts.
fn plan_counts(planned: &Vec<Planned>) -> (counts: (usize, usize, usize, usize))
    ensures
        counts.0 == changes_for(StoreId::Shares, planned.deep_view()).len(),
        counts.1 == changes_for(StoreId::Positions, planned.deep_view()).len(),
        counts.2 == changes_for(StoreId::Enrollment, planned.deep_view()).len(),
        counts.3 == changes_for(StoreId::Accounts, planned.deep_view()).len(),
{
    let ghost all = planned.deep_view();
    let mut shares: usize = 0;
    let mut positions: usize = 0;
    let mut enrollment: usize = 0;
    let mut accounts: usize = 0;
    let mut i: usize = 0;
    assert(all.take(0) =~= Seq::<PlannedModel>::empty());
    while i < planned.len()
        invariant
            i <= planned@.len(),
            all == planned.deep_view(),
            shares + positions + enrollment + accounts == i,
            shares == changes_for(StoreId::Shares, all.take(i as int)).len(),
            positions == changes_for(StoreId::Positions, all.take(i as int)).len(),
            enrollment == changes_for(StoreId::Enrollment, all.take(i as int)).len(),
            accounts == changes_for(StoreId::Accounts, all.take(i as int)).len(),
        decreases planned@.len() - i,
    {
        proof {
            assert(all.take(i + 1).drop_last() =~= all.take(i as int));
            assert(all.take(i + 1).last() == planned@[i as int]@);
        }
        match planned[i].store {
            StoreId::Shares => {
                shares = shares + 1;
            },
            StoreId::Positions => {
                positions = positions + 1;
            },
            StoreId::Enrollment => {
                enrollment = enrollment + 1;
            },
            StoreId::Accounts => {
                accounts = accounts + 1;
            },
        }
        i = i + 1;
    }
    assert(all.take(planned@.len() as int) =~= all);
    (shares, positions, enrollment, accounts)
}

/// Folds the events of a block into the stores and renders the changeset.
/// Nothing is applied unless the changeset can be numbered.
fn settle(stores: &mut Stores, clock: &Clock, events: Vec<DomainEvent>) -> (r: Result<
    BlockOutput,
    Error,
>)
    requires
        old(stores).wf(),
        old(stores).settled(),
        forall|i: int, j: int|
            0 <= i < j < events@.len() ==> ordinal_of(#[trigger] events.deep_view()[i])
                < ordinal_of(#[trigger] events.deep_view()[j]),
        forall|i: int| 0 <= i < events@.len() ==> numbers_decimal(#[trigger] events.deep_view()[i]),
    ensures
        final(stores).wf(),
        final(stores).settled(),
        reached(
            events_outcome(events.deep_view(), states_of(*old(stores)), *clock),
            states_of(*old(stores)),
            r,
            states_of(*final(stores)),
        ),
        r matches Ok(output) ==> one_row_each(
            change_rows(output.changes),
            output.events.deep_view(),
            output.deltas.of(StoreId::Shares).len(),
            output.deltas.of(StoreId::Positions).len(),
            output.deltas.of(StoreId::Enrollment).len(),
            output.deltas.of(StoreId::Accounts).len(),
        ),
{
    let ghost states = states_of(*stores);
    let ghost outcome = events_outcome(events.deep_view(), states, *clock);
    let ghost all = planned_changes(events.deep_view());
    let ghost shares = changes_for(StoreId::Shares, all);
    let ghost positions = changes_for(StoreId::Positions, all);
    let ghost enrollment = changes_for(StoreId::Enrollment, all);
    let ghost accounts = changes_for(StoreId::Accounts, all);
    proof {
        lemma_plan(events.deep_view());
        lemma_partition(all);
        lemma_deltas_shaped(StoreId::Shares, states.shares, shares);
        lemma_deltas_shaped(StoreId::Positions, states.positions, positions);
        lemma_deltas_shaped(StoreId::Enrollment, states.enrollment, enrollment);
        lemma_deltas_shaped(StoreId::Accounts, states.accounts, accounts);
        assert forall|i: int| 0 <= i < events@.len() implies amounts_ok(
            #[trigger] events.deep_view()[i],
        ) by {
            assert(numbers_decimal(events.deep_view()[i]));
        }
    }
    let planned = match plan(&events) {
        Ok(planned) => planned,
        Err(e) => {
            return Err(Error::TooManyRows);
        },
    };
    let counts = plan_counts(&planned);
    let many = events.len() > 0 || planned.len() > 0;
    let needed: u128 = events_operations(&events) + 5 * (counts.0 as u128) + 6 * (counts.1 as u128)
        + 5 * (counts.2 as u128) + 4 * (counts.3 as u128) + (if many {
        1u128
    } else {
        0u128
    });
    if needed > u64::MAX as u128 {
        return Err(Error::TooManyRows);
    }
    match stores.apply_plan(&planned) {
        Ok(()) => {},
        Err(e) => {
            return Err(Error::TooManyRows);
        },
    }
    let ghost applied = *stores;
    let deltas = stores.take_deltas();
    proof {
        assert(deltas.of(StoreId::Shares) == applied.store(StoreId::Shares).recorded());
        assert(deltas.of(StoreId::Positions) == applied.store(StoreId::Positions).recorded());
        assert(deltas.of(StoreId::Enrollment) == applied.store(StoreId::Enrollment).recorded());
        assert(deltas.of(StoreId::Accounts) == applied.store(StoreId::Accounts).recorded());
        assert(deltas.of(StoreId::Shares) =~= outcome.shares);
        assert(deltas.of(StoreId::Positions) =~= outcome.positions);
        assert(deltas.of(StoreId::Enrollment) =~= outcome.enrollment);
        assert(deltas.of(StoreId::Accounts) =~= outcome.accounts);
        assert forall|id: StoreId| keys_shaped(id, #[trigger] deltas.of(id)) by {
            match id {
                StoreId::Shares => {},
                StoreId::Positions => {},
                StoreId::Enrollment => {},
                StoreId::Accounts => {},
            }
        }
        assert(states_of(applied) == outcome.states);
        assert(stores.store(StoreId::Shares).state() == applied.store(StoreId::Shares).state());
        assert(stores.store(StoreId::Positions).state() == applied.store(
            StoreId::Positions,
        ).state());
        assert(stores.store(StoreId::Enrollment).state() == applied.store(
            StoreId::Enrollment,
        ).state());
        assert(stores.store(StoreId::Accounts).state() == applied.store(
            StoreId::Accounts,
        ).state());
        assert(states_of(*stores) == outcome.states);
    }
    match emit(clock, &events, &deltas) {
        Ok(changes) => Ok(BlockOutput { events, deltas, changes }),
        Err(e) => Err(Error::TooManyRows),
    }
}

impl Pipeline {
    /// The events of a block, given the store of tracked accounts as the block
    /// found it.
    fn events_of(&self, block: &Block, stores: &Stores) -> (events: Vec<DomainEvent>)
        requires
            stores.wf(),
        ensures
            events.deep_view() == pipeline_events(
                self.registry@,
                self.decoders@,
                stores.accounts.state(),
                block@.logs,
            ),
            forall|i: int, j: int|
                0 <= i < j < events@.len() ==> ordinal_of(#[trigger] events.deep_view()[i])
                    < ordinal_of(#[trigger] events.deep_view()[j]),
            forall|i: int|
                0 <= i < events@.len() ==> numbers_decimal(#[trigger] events.deep_view()[i]),
    {
        let nobody = Accounts { accounts: Vec::new() };
        assert(nobody.accounts.deep_view() =~= Seq::<Seq<u8>>::empty());
        let first_pass = aggregate(block, &self.registry, &self.decoders, &nobody, &stores.accounts);
        let fresh = Accounts { accounts: accounts_of(&first_pass) };
        aggregate(block, &self.registry, &self.decoders, &fresh, &stores.accounts)
    }

    /// Evaluates one block: decodes its logs into events, folds the events into
    /// the stores, and renders events and deltas as the changeset of the block.
    ///
    /// A block starts without deltas: those that the stores still hold from
    /// before are dropped first, and those of the block are handed out with the
    /// output, so that the stores stand between two blocks afterwards. The
    /// evaluation fails only where the changeset needs more row operations than
    /// the sink can number; the states of the stores are then left as they were.
    pub fn process_block(&self, stores: &mut Stores, block: &Block) -> (r: Result<
        BlockOutput,
        Error,
    >)
        requires
            old(stores).wf(),
        ensures
            final(stores).wf(),
            final(stores).settled(),
            evaluated(
                self.registry@,
                self.decoders@,
                states_of(*old(stores)),
                block@,
                r,
                states_of(*final(stores)),
            ),
            r matches Ok(output) ==> one_row_each(
                change_rows(output.changes),
                output.events.deep_view(),
                output.deltas.of(StoreId::Shares).len(),
                output.deltas.of(StoreId::Positions).len(),
                output.deltas.of(StoreId::Enrollment).len(),
                output.deltas.of(StoreId::Accounts).len(),
            ),
    {
        let ghost found = *stores;
        stores.take_deltas();
        proof {
            assert(stores.store(StoreId::Shares).state() == found.store(StoreId::Shares).state());
            assert(stores.store(StoreId::Positions).state() == found.store(
                StoreId::Positions,
            ).state());
            assert(stores.store(StoreId::Enrollment).state() == found.store(
                StoreId::Enrollment,
            ).state());
            assert(stores.store(StoreId::Accounts).state() == found.store(
                StoreId::Accounts,
            ).state());
            assert(states_of(*stores) == states_of(found));
        }
        let events = self.events_of(block, stores);
        let clock = block.clock();
        settle(stores, &clock, events)
    }
}

} // verus!
