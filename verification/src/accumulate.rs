//! Folding the events of a block into the stores.
//!
//! Four accumulations are kept: the share balance of every account in every
//! market, the fixed-term position of every borrower at every maturity of every
//! market, the enrolment of every account in every market, and the set of
//! tracked accounts. Amounts are turned from decimal text into integers here
//! and nowhere earlier.

use crate::aggregator::{account_key, is_tracked};
use crate::bigint::{decimal_value, is_decimal, BigInt};
use crate::decoder::{DomainEvent, EventModel};
use crate::encoding::{hex_string, to_hex};
use crate::error::Error;
use crate::store::{
    applied, delta_of, flattened, floor_of, lemma_last_write_wins, lemma_reorg_replay_blocks,
    read, replayed, run, run_blocks, run_deltas, Change, Delta, DeltaModel, Policy, Store,
};
use crate::types::{Accounts, ADDRESS_LENGTH};
use vstd::prelude::*;

verus! {

/// The stores that the events of a chain are folded into.
#[derive(Clone, Copy, Debug, PartialEq, Eq, Structural)]
pub enum StoreId {
    /// Share balances by market and account; additive.
    Shares,
    /// Fixed-term positions by market, maturity and borrower; additive.
    Positions,
    /// Enrolment flags by market and account; overwriting.
    Enrollment,
    /// Tracked accounts by account; overwriting.
    Accounts,
}

/// The merge policy of each store.
pub open spec fn policy_for(id: StoreId) -> Policy {
    match id {
        StoreId::Shares => Policy::Add,
        StoreId::Positions => Policy::Add,
        StoreId::Enrollment => Policy::Overwrite,
        StoreId::Accounts => Policy::Overwrite,
    }
}

/// A change that an event asks of one of the stores.
#[derive(Debug, PartialEq, Eq)]
pub struct Planned {
    pub store: StoreId,
    pub ordinal: u64,
    pub key: Vec<String>,
    pub amount: BigInt,
}

/// What a [`Planned`] holds.
pub struct PlannedModel {
    pub store: StoreId,
    pub change: Change,
}

impl View for Planned {
    type V = PlannedModel;

    open spec fn view(&self) -> PlannedModel {
        PlannedModel {
            store: self.store,
            change: Change { ordinal: self.ordinal, key: self.key.deep_view(), amount: self.amount@ },
        }
    }
}

impl DeepView for Planned {
    type V = PlannedModel;

    open spec fn deep_view(&self) -> PlannedModel {
        self@
    }
}

/// The zero address, which stands for no account: twenty bytes, every one of
/// them zero.
pub open spec fn is_zero_address(address: Seq<u8>) -> bool {
    address.len() == ADDRESS_LENGTH && forall|i: int|
        0 <= i < address.len() ==> #[trigger] address[i] == 0
}

/// The key of a market and an account.
pub open spec fn pair_key(market: Seq<u8>, account: Seq<u8>) -> Seq<Seq<char>> {
    seq![hex_string(market), hex_string(account)]
}

/// The key of a fixed-term position.
pub open spec fn position_key(market: Seq<u8>, maturity: Seq<char>, borrower: Seq<u8>) -> Seq<
    Seq<char>,
> {
    seq![hex_string(market), maturity, hex_string(borrower)]
}

/// Whether the numeric fields that an event is accumulated by are decimal
/// texts.
pub open spec fn amounts_ok(event: EventModel) -> bool {
    match event {
        EventModel::Transfer { amount, .. } => is_decimal(amount),
        EventModel::PositionOpened { principal, fee, .. } => is_decimal(principal) && is_decimal(
            fee,
        ),
        EventModel::PositionClosed { principal, .. } => is_decimal(principal),
        _ => true,
    }
}

/// The changes that one event asks for.
///
/// A transfer takes the amount from the balance of the sender and adds it to
/// that of the receiver, the sender first; a leg at the zero address is left
/// out. An opened position adds principal and fee to the position, a closed one
/// takes the principal from it. Entering a market sets the enrolment flag to 1,
/// leaving it sets the flag to 0. An initialised account is tracked from then
/// on. Every change carries the ordinal of its event.
pub open spec fn event_changes(event: EventModel) -> Seq<PlannedModel> {
    match event {
        EventModel::Transfer { token, from, to, amount, ordinal } => {
            let value = decimal_value(amount);
            let debit = PlannedModel {
                store: StoreId::Shares,
                change: Change { ordinal, key: pair_key(token, from), amount: -value },
            };
            let credit = PlannedModel {
                store: StoreId::Shares,
                change: Change { ordinal, key: pair_key(token, to), amount: value },
            };
            (if is_zero_address(from) {
                Seq::empty()
            } else {
                seq![debit]
            }) + (if is_zero_address(to) {
                Seq::empty()
            } else {
                seq![credit]
            })
        },
        EventModel::PositionOpened { market, maturity, borrower, principal, fee, ordinal } => seq![
            PlannedModel {
                store: StoreId::Positions,
                change: Change {
                    ordinal,
                    key: position_key(market, maturity, borrower),
                    amount: decimal_value(principal) + decimal_value(fee),
                },
            },
        ],
        EventModel::PositionClosed { market, maturity, borrower, principal, ordinal } => seq![
            PlannedModel {
                store: StoreId::Positions,
                change: Change {
                    ordinal,
                    key: position_key(market, maturity, borrower),
                    amount: -decimal_value(principal),
                },
            },
        ],
        EventModel::MarketEntered { market, account, ordinal } => seq![
            PlannedModel {
                store: StoreId::Enrollment,
                change: Change { ordinal, key: pair_key(market, account), amount: 1 },
            },
        ],
        EventModel::MarketExited { market, account, ordinal } => seq![
            PlannedModel {
                store: StoreId::Enrollment,
                change: Change { ordinal, key: pair_key(market, account), amount: 0 },
            },
        ],
        EventModel::AccountInitialized { account, ordinal } => seq![
            PlannedModel {
                store: StoreId::Accounts,
                change: Change { ordinal, key: account_key(account), amount: 1 },
            },
        ],
        EventModel::PluginInstalled { .. } => Seq::empty(),
    }
}

/// The changes that a run of events asks for, in the order of the events.
pub open spec fn planned_changes(events: Seq<EventModel>) -> Seq<PlannedModel>
    decreases events.len(),
{
    if events.len() == 0 {
        Seq::empty()
    } else {
        planned_changes(events.drop_last()) + event_changes(events.last())
    }
}

/// The changes of a plan that go to one store, in order.
pub open spec fn changes_for(id: StoreId, plan: Seq<PlannedModel>) -> Seq<Change>
    decreases plan.len(),
{
    if plan.len() == 0 {
        Seq::empty()
    } else if plan.last().store == id {
        changes_for(id, plan.drop_last()).push(plan.last().change)
    } else {
        changes_for(id, plan.drop_last())
    }
}

/// The ordinals of a plan never fall.
pub open spec fn plan_in_order(plan: Seq<PlannedModel>) -> bool {
    forall|i: int, j: int|
        0 <= i <= j < plan.len() ==> (#[trigger] plan[i]).change.ordinal <= (
        #[trigger] plan[j]).change.ordinal
}

/// Whether an address is the zero address.
pub fn zero_address(address: &[u8]) -> (r: bool)
    ensures
        r == is_zero_address(address@),
{
    if address.len() != ADDRESS_LENGTH {
        return false;
    }
    let mut i: usize = 0;
    while i < address.len()
        invariant
            i <= address@.len(),
            forall|k: int| 0 <= k < i ==> #[trigger] address@[k] == 0,
        decreases address@.len() - i,
    {
        if address[i] != 0 {
            return false;
        }
        i = i + 1;
    }
    true
}

/// The key of a market and an account.
fn pair(market: &[u8], account: &[u8]) -> (key: Vec<String>)
    ensures
        key.deep_view() == pair_key(market@, account@),
{
    let key = vec![to_hex(market), to_hex(account)];
    assert(key.deep_view() =~= pair_key(market@, account@));
    key
}

/// Adds the changes of one event to a plan.
fn plan_event(event: &DomainEvent, plan: &mut Vec<Planned>) -> (r: Result<(), Error>)
    ensures
        r is Ok <==> amounts_ok(event@),
        r is Ok ==> final(plan).deep_view() == old(plan).deep_view() + event_changes(event@),
        r matches Err(e) ==> e == Error::MalformedAmount,
{
    let ghost before = plan.deep_view();
    match event {
        DomainEvent::Transfer { token, from, to, amount, ordinal } => {
            let value = match BigInt::parse(amount.as_str()) {
                Some(value) => value,
                None => {
                    return Err(Error::MalformedAmount);
                },
            };
            if !zero_address(from.as_slice()) {
                let ghost so_far = plan.deep_view();
                let debit = Planned {
                    store: StoreId::Shares,
                    ordinal: *ordinal,
                    key: pair(token.as_slice(), from.as_slice()),
                    amount: value.negated(),
                };
                plan.push(debit);
                assert(plan.deep_view() =~= so_far.push(debit@));
            }
            if !zero_address(to.as_slice()) {
                let ghost so_far = plan.deep_view();
                let credit = Planned {
                    store: StoreId::Shares,
                    ordinal: *ordinal,
                    key: pair(token.as_slice(), to.as_slice()),
                    amount: value,
                };
                plan.push(credit);
                assert(plan.deep_view() =~= so_far.push(credit@));
            }
            assert(plan.deep_view() =~= before + event_changes(event@));
        },
        DomainEvent::PositionOpened { market, maturity, borrower, principal, fee, ordinal } => {
            let principal = match BigInt::parse(principal.as_str()) {
                Some(value) => value,
                None => {
                    return Err(Error::MalformedAmount);
                },
            };
            let fee = match BigInt::parse(fee.as_str()) {
                Some(value) => value,
                None => {
                    return Err(Error::MalformedAmount);
                },
            };
            let key = vec![
                to_hex(market.as_slice()),
                maturity.clone(),
                to_hex(borrower.as_slice()),
            ];
            assert(key.deep_view() =~= position_key(market@, maturity@, borrower@));
            let opened = Planned {
                store: StoreId::Positions,
                ordinal: *ordinal,
                key,
                amount: principal.plus(&fee),
            };
            plan.push(opened);
            assert(plan.deep_view() =~= before + event_changes(event@));
        },
        DomainEvent::PositionClosed { market, maturity, borrower, principal, ordinal } => {
            let principal = match BigInt::parse(principal.as_str()) {
                Some(value) => value,
                None => {
                    return Err(Error::MalformedAmount);
                },
            };
            let key = vec![
                to_hex(market.as_slice()),
                maturity.clone(),
                to_hex(borrower.as_slice()),
            ];
            assert(key.deep_view() =~= position_key(market@, maturity@, borrower@));
            let closed = Planned {
                store: StoreId::Positions,
                ordinal: *ordinal,
                key,
                amount: principal.negated(),
            };
            plan.push(closed);
            assert(plan.deep_view() =~= before + event_changes(event@));
        },
        DomainEvent::MarketEntered { market, account, ordinal } => {
            let entered = Planned {
                store: StoreId::Enrollment,
                ordinal: *ordinal,
                key: pair(market.as_slice(), account.as_slice()),
                amount: BigInt::from_u64(1),
            };
            plan.push(entered);
            assert(plan.deep_view() =~= before + event_changes(event@));
        },
        DomainEvent::MarketExited { market, account, ordinal } => {
            let exited = Planned {
                store: StoreId::Enrollment,
                ordinal: *ordinal,
                key: pair(market.as_slice(), account.as_slice()),
                amount: BigInt::zero(),
            };
            plan.push(exited);
            assert(plan.deep_view() =~= before + event_changes(event@));
        },
        DomainEvent::AccountInitialized { account, ordinal } => {
            let key = vec![to_hex(account.as_slice())];
            assert(key.deep_view() =~= account_key(account@));
            let initialized = Planned {
                store: StoreId::Accounts,
                ordinal: *ordinal,
                key,
                amount: BigInt::from_u64(1),
            };
            plan.push(initialized);
            assert(plan.deep_view() =~= before + event_changes(event@));
        },
        DomainEvent::PluginInstalled { .. } => {
            assert(plan.deep_view() =~= before + event_changes(event@));
        },
    }
    Ok(())
}

/// The changes that a list of events asks of the stores, in the order of the
/// events. A numeric field that is no decimal text makes the planning fail.
pub fn plan(events: &Vec<DomainEvent>) -> (r: Result<Vec<Planned>, Error>)
    ensures
        r is Ok <==> forall|i: int|
            0 <= i < events@.len() ==> amounts_ok(#[trigger] events.deep_view()[i]),
        r matches Ok(plan) ==> plan.deep_view() == planned_changes(events.deep_view()),
        r matches Err(e) ==> e == Error::MalformedAmount,
{
    let ghost all = events.deep_view();
    let mut plan: Vec<Planned> = Vec::new();
    let mut i: usize = 0;
    assert(all.take(0) =~= Seq::<EventModel>::empty());
    assert(plan.deep_view() =~= Seq::<PlannedModel>::empty());
    while i < events.len()
        invariant
            i <= events@.len(),
            all == events.deep_view(),
            forall|k: int| 0 <= k < i ==> amounts_ok(#[trigger] all[k]),
            plan.deep_view() == planned_changes(all.take(i as int)),
        decreases events@.len() - i,
    {
        proof {
            assert(all[i as int] == events@[i as int]@);
            assert(all.take(i + 1).drop_last() =~= all.take(i as int));
            assert(all.take(i + 1).last() == events@[i as int]@);
        }
        match plan_event(&events[i], &mut plan) {
            Ok(()) => {},
            Err(e) => {
                return Err(e);
            },
        }
        i = i + 1;
    }
    assert(all.take(events@.len() as int) =~= all);
    Ok(plan)
}

/// Whether the ordinals of a plan never fall.
fn in_order(plan: &Vec<Planned>) -> (r: bool)
    ensures
        r == plan_in_order(plan.deep_view()),
{
    let ghost all = plan.deep_view();
    let mut i: usize = 1;
    while i < plan.len()
        invariant
            1 <= i,
            all == plan.deep_view(),
            forall|k: int, l: int|
                0 <= k <= l < i && l < all.len() ==> (#[trigger] all[k]).change.ordinal <= (
                #[trigger] all[l]).change.ordinal,
        decreases plan@.len() - i,
    {
        assert(all[i as int] == plan@[i as int]@);
        assert(all[i - 1] == plan@[i - 1]@);
        if plan[i - 1].ordinal > plan[i].ordinal {
            return false;
        }
        i = i + 1;
    }
    true
}

/// The four stores of a chain.
pub struct Stores {
    pub shares: Store,
    pub positions: Store,
    pub enrollment: Store,
    pub accounts: Store,
}

/// The deltas of one block, store by store.
#[derive(Debug, PartialEq, Eq)]
pub struct BlockDeltas {
    pub shares: Vec<Delta>,
    pub positions: Vec<Delta>,
    pub enrollment: Vec<Delta>,
    pub accounts: Vec<Delta>,
}

impl BlockDeltas {
    /// The deltas of one store, in order.
    pub open spec fn of(&self, id: StoreId) -> Seq<DeltaModel> {
        match id {
            StoreId::Shares => self.shares.deep_view(),
            StoreId::Positions => self.positions.deep_view(),
            StoreId::Enrollment => self.enrollment.deep_view(),
            StoreId::Accounts => self.accounts.deep_view(),
        }
    }
}

/// The changes that mark a list of accounts as tracked: each account is set
/// to 1, at ordinal zero.
pub open spec fn account_changes(accounts: Seq<Seq<u8>>) -> Seq<Change> {
    Seq::new(
        accounts.len(),
        |i: int| Change { ordinal: 0, key: account_key(accounts[i]), amount: 1 },
    )
}

/// A store is where its part of a plan, applied to `start`, leads it: its
/// state is that of the run of its changes, and its deltas are those it had
/// followed by those that the run records.
pub open spec fn store_follows(now: Store, start: Store, id: StoreId, plan: Seq<PlannedModel>)
    -> bool {
    &&& now.state() == run(policy_for(id), start.state(), changes_for(id, plan))
    &&& now.recorded() == start.recorded() + run_deltas(
        policy_for(id),
        start.state(),
        changes_for(id, plan),
    )
}

/// A store has the state and the deltas of another.
pub open spec fn store_same(now: Store, start: Store) -> bool {
    now.state() == start.state() && now.recorded() == start.recorded()
}

/// A store follows the empty plan from itself.
proof fn lemma_follows_nothing(start: Store, id: StoreId)
    ensures
        store_follows(start, start, id, Seq::empty()),
{
    assert(start.recorded() + Seq::<DeltaModel>::empty() =~= start.recorded());
}

/// A store that a change of its own was applied to follows the plan with
/// that change.
proof fn lemma_follows_applied(
    now: Store,
    before: Store,
    start: Store,
    id: StoreId,
    done: Seq<PlannedModel>,
    step: PlannedModel,
)
    requires
        store_follows(before, start, id, done),
        step.store == id,
        now.state() == applied(policy_for(id), before.state(), step.change),
        now.recorded() == before.recorded().push(
            delta_of(policy_for(id), before.state(), step.change),
        ),
    ensures
        store_follows(now, start, id, done.push(step)),
{
    let next = done.push(step);
    assert(next.drop_last() =~= done);
    let earlier = changes_for(id, done);
    let changes = earlier.push(step.change);
    assert(changes_for(id, next) == changes);
    assert(changes.drop_last() =~= earlier);
    assert(now.recorded() =~= start.recorded() + run_deltas(
        policy_for(id),
        start.state(),
        changes,
    ));
}

/// A store follows a plan with a change more that goes to another store.
proof fn lemma_follows_untouched(
    now: Store,
    start: Store,
    id: StoreId,
    done: Seq<PlannedModel>,
    step: PlannedModel,
)
    requires
        store_follows(now, start, id, done),
        step.store != id,
    ensures
        store_follows(now, start, id, done.push(step)),
{
    let next = done.push(step);
    assert(next.drop_last() =~= done);
}

impl Stores {
    /// The store of an accumulation.
    pub open spec fn store(&self, id: StoreId) -> Store {
        match id {
            StoreId::Shares => self.shares,
            StoreId::Positions => self.positions,
            StoreId::Enrollment => self.enrollment,
            StoreId::Accounts => self.accounts,
        }
    }

    /// Every store is well formed and has the policy of its accumulation.
    pub open spec fn wf(&self) -> bool {
        &&& self.shares.wf() && self.shares.policy_of() == Policy::Add
        &&& self.positions.wf() && self.positions.policy_of() == Policy::Add
        &&& self.enrollment.wf() && self.enrollment.policy_of() == Policy::Overwrite
        &&& self.accounts.wf() && self.accounts.policy_of() == Policy::Overwrite
    }

    /// Every store has the state and the deltas that it has in `other`.
    pub open spec fn same_as(&self, other: &Stores) -> bool {
        &&& store_same(self.shares, other.shares)
        &&& store_same(self.positions, other.positions)
        &&& store_same(self.enrollment, other.enrollment)
        &&& store_same(self.accounts, other.accounts)
    }

    /// Every store is where its part of a plan, applied to `start`, leads it.
    pub open spec fn follows(&self, start: &Stores, plan: Seq<PlannedModel>) -> bool {
        &&& store_follows(self.shares, start.shares, StoreId::Shares, plan)
        &&& store_follows(self.positions, start.positions, StoreId::Positions, plan)
        &&& store_follows(self.enrollment, start.enrollment, StoreId::Enrollment, plan)
        &&& store_follows(self.accounts, start.accounts, StoreId::Accounts, plan)
    }

    /// No store has recorded a delta above the ordinal.
    pub open spec fn floors_at_most(&self, ordinal: u64) -> bool {
        &&& floor_of(self.shares.recorded()) <= ordinal
        &&& floor_of(self.positions.recorded()) <= ordinal
        &&& floor_of(self.enrollment.recorded()) <= ordinal
        &&& floor_of(self.accounts.recorded()) <= ordinal
    }

    /// Four empty stores.
    pub fn new() -> (stores: Stores)
        ensures
            stores.wf(),
            stores.settled(),
            forall|id: StoreId|
                (#[trigger] stores.store(id)).state() == Map::<Seq<Seq<char>>, int>::empty()
                    && stores.store(id).recorded() == Seq::<DeltaModel>::empty(),
    {
        Stores {
            shares: Store::new(Policy::Add),
            positions: Store::new(Policy::Add),
            enrollment: Store::new(Policy::Overwrite),
            accounts: Store::new(Policy::Overwrite),
        }
    }

    /// No store has recorded a delta: the stores stand between two blocks.
    pub open spec fn settled(&self) -> bool {
        &&& self.shares.recorded() == Seq::<DeltaModel>::empty()
        &&& self.positions.recorded() == Seq::<DeltaModel>::empty()
        &&& self.enrollment.recorded() == Seq::<DeltaModel>::empty()
        &&& self.accounts.recorded() == Seq::<DeltaModel>::empty()
    }

    /// Ends the block: hands out the deltas that the stores recorded and leaves
    /// the stores with none. The states stay.
    pub fn take_deltas(&mut self) -> (deltas: BlockDeltas)
        requires
            old(self).wf(),
        ensures
            final(self).wf(),
            final(self).settled(),
            forall|id: StoreId|
                (#[trigger] final(self).store(id)).state() == old(self).store(id).state(),
            forall|id: StoreId| #[trigger] deltas.of(id) == old(self).store(id).recorded(),
    {
        BlockDeltas {
            shares: self.shares.take_deltas(),
            positions: self.positions.take_deltas(),
            enrollment: self.enrollment.take_deltas(),
            accounts: self.accounts.take_deltas(),
        }
    }

    /// Applies one planned change to its store.
    fn apply_step(&mut self, step: &Planned, Ghost(start): Ghost<Stores>, Ghost(done): Ghost<
        Seq<PlannedModel>,
    >)
        requires
            old(self).wf(),
            old(self).follows(&start, done),
            old(self).floors_at_most(step.ordinal),
        ensures
            final(self).wf(),
            final(self).follows(&start, done.push(step@)),
            final(self).floors_at_most(step.ordinal),
    {
        let ghost before = *self;
        let outcome = match step.store {
            StoreId::Shares => self.shares.apply(step.ordinal, &step.key, &step.amount),
            StoreId::Positions => self.positions.apply(step.ordinal, &step.key, &step.amount),
            StoreId::Enrollment => self.enrollment.apply(step.ordinal, &step.key, &step.amount),
            StoreId::Accounts => self.accounts.apply(step.ordinal, &step.key, &step.amount),
        };
        assert(outcome is Ok);
        proof {
            if step.store == StoreId::Shares {
                lemma_follows_applied(
                    self.shares,
                    before.shares,
                    start.shares,
                    StoreId::Shares,
                    done,
                    step@,
                );
            } else {
                lemma_follows_untouched(self.shares, start.shares, StoreId::Shares, done, step@);
            }
            if step.store == StoreId::Positions {
                lemma_follows_applied(
                    self.positions,
                    before.positions,
                    start.positions,
                    StoreId::Positions,
                    done,
                    step@,
                );
            } else {
                lemma_follows_untouched(
                    self.positions,
                    start.positions,
                    StoreId::Positions,
                    done,
                    step@,
                );
            }
            if step.store == StoreId::Enrollment {
                lemma_follows_applied(
                    self.enrollment,
                    before.enrollment,
                    start.enrollment,
                    StoreId::Enrollment,
                    done,
                    step@,
                );
            } else {
                lemma_follows_untouched(
                    self.enrollment,
                    start.enrollment,
                    StoreId::Enrollment,
                    done,
                    step@,
                );
            }
            if step.store == StoreId::Accounts {
                lemma_follows_applied(
                    self.accounts,
                    before.accounts,
                    start.accounts,
                    StoreId::Accounts,
                    done,
                    step@,
                );
            } else {
                lemma_follows_untouched(
                    self.accounts,
                    start.accounts,
                    StoreId::Accounts,
                    done,
                    step@,
                );
            }
        }
    }

    /// Applies a plan to the stores, change by change.
    ///
    /// Nothing is applied unless everything can be: the ordinals of the changes
    /// must never fall, and no store may have recorded a delta of this block
    /// above the first of them.
    pub fn apply_plan(&mut self, plan: &Vec<Planned>) -> (r: Result<(), Error>)
        requires
            old(self).wf(),
        ensures
            final(self).wf(),
            r is Ok <==> {
                &&& plan_in_order(plan.deep_view())
                &&& plan@.len() > 0 ==> old(self).floors_at_most(
                    plan.deep_view()[0].change.ordinal,
                )
            },
            r is Ok ==> final(self).follows(old(self), plan.deep_view()),
            r matches Err(e) ==> final(self).same_as(old(self)) && e == Error::OrdinalRegression,
    {
        let ghost all = plan.deep_view();
        if !in_order(plan) {
            return Err(Error::OrdinalRegression);
        }
        if plan.len() > 0 {
            assert(all[0] == plan@[0]@);
            let first = plan[0].ordinal;
            if self.shares.floor() > first || self.positions.floor() > first
                || self.enrollment.floor() > first || self.accounts.floor() > first {
                return Err(Error::OrdinalRegression);
            }
        }
        let mut i: usize = 0;
        proof {
            assert(all.take(0) =~= Seq::<PlannedModel>::empty());
            lemma_follows_nothing(self.shares, StoreId::Shares);
            lemma_follows_nothing(self.positions, StoreId::Positions);
            lemma_follows_nothing(self.enrollment, StoreId::Enrollment);
            lemma_follows_nothing(self.accounts, StoreId::Accounts);
        }
        while i < plan.len()
            invariant
                i <= plan@.len(),
                all == plan.deep_view(),
                plan_in_order(all),
                self.wf(),
                self.follows(old(self), all.take(i as int)),
                i < plan@.len() ==> self.floors_at_most(all[i as int].change.ordinal),
            decreases plan@.len() - i,
        {
            proof {
                assert(all[i as int] == plan@[i as int]@);
                assert(all.take(i + 1) =~= all.take(i as int).push(plan@[i as int]@));
            }
            self.apply_step(&plan[i], Ghost(*old(self)), Ghost(all.take(i as int)));
            proof {
                if i + 1 < plan@.len() {
                    assert(all[i as int].change.ordinal <= all[i + 1].change.ordinal);
                }
            }
            i = i + 1;
        }
        assert(all.take(plan@.len() as int) =~= all);
        Ok(())
    }

    /// Folds the events of a block into the stores, in the order of the events.
    ///
    /// Nothing is applied unless everything can be: the numeric fields must be
    /// decimal texts, the ordinals of the changes must never fall, and no store
    /// may have recorded a delta of this block above the first of them.
    pub fn accumulate(&mut self, events: &Vec<DomainEvent>) -> (r: Result<(), Error>)
        requires
            old(self).wf(),
        ensures
            final(self).wf(),
            r is Ok <==> {
                let plan = planned_changes(events.deep_view());
                &&& forall|i: int|
                    0 <= i < events@.len() ==> amounts_ok(#[trigger] events.deep_view()[i])
                &&& plan_in_order(plan)
                &&& plan.len() > 0 ==> old(self).floors_at_most(plan[0].change.ordinal)
            },
            r is Ok ==> final(self).follows(old(self), planned_changes(events.deep_view())),
            r matches Err(e) ==> final(self).same_as(old(self)) && e == (if forall|i: int|
                0 <= i < events@.len() ==> amounts_ok(#[trigger] events.deep_view()[i]) {
                Error::OrdinalRegression
            } else {
                Error::MalformedAmount
            }),
    {
        match plan(events) {
            Ok(plan) => self.apply_plan(&plan),
            Err(e) => Err(e),
        }
    }
}

/// Marks the accounts that a block initialised as tracked: each is set to 1 in
/// the store of tracked accounts, at ordinal zero, in the order of the list.
///
/// The store must be an overwriting one. Nothing is applied where the store has
/// already recorded a delta of this block above ordinal zero.
pub fn store_exa_accounts(new: &Accounts, store: &mut Store) -> (r: Result<(), Error>)
    requires
        old(store).wf(),
        old(store).policy_of() == Policy::Overwrite,
    ensures
        final(store).wf(),
        final(store).policy_of() == Policy::Overwrite,
        r is Ok <==> (new.accounts@.len() == 0 || floor_of(old(store).recorded()) == 0),
        r is Ok ==> final(store).state() == run(
            Policy::Overwrite,
            old(store).state(),
            account_changes(new.accounts.deep_view()),
        ) && final(store).recorded() == old(store).recorded() + run_deltas(
            Policy::Overwrite,
            old(store).state(),
            account_changes(new.accounts.deep_view()),
        ),
        r is Ok ==> forall|i: int|
            0 <= i < new.accounts@.len() ==> is_tracked(
                Policy::Overwrite,
                final(store).state(),
                #[trigger] new.accounts.deep_view()[i],
            ),
        r matches Err(e) ==> e == Error::OrdinalRegression && final(store).state() == old(
            store,
        ).state() && final(store).recorded() == old(store).recorded(),
{
    let ghost all = new.accounts.deep_view();
    let ghost changes = account_changes(all);
    let ghost start_state = store.state();
    let ghost start_deltas = store.recorded();
    if new.accounts.len() > 0 && store.floor() > 0 {
        return Err(Error::OrdinalRegression);
    }
    let one = BigInt::from_u64(1);
    let mut i: usize = 0;
    proof {
        assert(changes.take(0) =~= Seq::<Change>::empty());
        assert(start_deltas + Seq::<DeltaModel>::empty() =~= start_deltas);
    }
    while i < new.accounts.len()
        invariant
            i <= new.accounts@.len(),
            all == new.accounts.deep_view(),
            changes == account_changes(all),
            one@ == 1,
            store.wf(),
            store.policy_of() == Policy::Overwrite,
            new.accounts@.len() > 0 ==> floor_of(store.recorded()) == 0,
            store.state() == run(Policy::Overwrite, start_state, changes.take(i as int)),
            store.recorded() == start_deltas + run_deltas(
                Policy::Overwrite,
                start_state,
                changes.take(i as int),
            ),
            forall|k: int|
                0 <= k < i ==> is_tracked(Policy::Overwrite, store.state(), #[trigger] all[k]),
        decreases new.accounts@.len() - i,
    {
        let ghost before = store.state();
        let ghost done = changes.take(i as int);
        let ghost next = changes.take(i + 1);
        let key = vec![to_hex(new.accounts[i].as_slice())];
        proof {
            crate::registry::lemma_bytes_view(new.accounts@[i as int]);
            assert(all[i as int] == new.accounts@[i as int]@);
            assert(key.deep_view() =~= account_key(all[i as int]));
            assert(next.drop_last() =~= done);
            assert(next.last() == changes[i as int]);
        }
        let outcome = store.apply(0, &key, &one);
        assert(outcome is Ok);
        proof {
            assert(store.recorded() =~= start_deltas + run_deltas(
                Policy::Overwrite,
                start_state,
                next,
            ));
            assert forall|k: int| 0 <= k < i + 1 implies is_tracked(
                Policy::Overwrite,
                store.state(),
                #[trigger] all[k],
            ) by {
                if k < i {
                    assert(is_tracked(Policy::Overwrite, before, all[k]));
                }
            }
        }
        i = i + 1;
    }
    assert(changes.take(new.accounts@.len() as int) =~= changes);
    Ok(())
}

/// The enrolment flag follows the last event: after a run of events that ends
/// with an account entering a market the flag of that account in that market
/// reads 1, and after one that ends with the account leaving it reads 0,
/// whatever came before.
pub proof fn lemma_enrollment_follows_last(state: Map<Seq<Seq<char>>, int>, events: Seq<EventModel>)
    requires
        events.len() > 0,
    ensures
        events.last() matches EventModel::MarketEntered { market, account, .. } ==> read(
            Policy::Overwrite,
            run(
                Policy::Overwrite,
                state,
                changes_for(StoreId::Enrollment, planned_changes(events)),
            ),
            pair_key(market, account),
        ) == Some(1int),
        events.last() matches EventModel::MarketExited { market, account, .. } ==> read(
            Policy::Overwrite,
            run(
                Policy::Overwrite,
                state,
                changes_for(StoreId::Enrollment, planned_changes(events)),
            ),
            pair_key(market, account),
        ) == Some(0int),
{
    let before = planned_changes(events.drop_last());
    let added = event_changes(events.last());
    let plan = planned_changes(events);
    match events.last() {
        EventModel::MarketEntered { .. } => {
            assert(plan =~= before.push(added[0]));
            assert(plan.drop_last() =~= before);
            lemma_last_write_wins(state, changes_for(StoreId::Enrollment, plan));
        },
        EventModel::MarketExited { .. } => {
            assert(plan =~= before.push(added[0]));
            assert(plan.drop_last() =~= before);
            lemma_last_write_wins(state, changes_for(StoreId::Enrollment, plan));
        },
        _ => {},
    }
}

/// The changes that mark the accounts of a run of blocks as tracked, block by
/// block.
pub open spec fn account_blocks(blocks: Seq<Seq<Seq<u8>>>) -> Seq<Seq<Change>> {
    Seq::new(blocks.len(), |i: int| account_changes(blocks[i]))
}

/// Whether one of the blocks lists the account of a key.
pub open spec fn marks(blocks: Seq<Seq<Seq<u8>>>, key: Seq<Seq<char>>) -> bool {
    exists|i: int, j: int|
        0 <= i < blocks.len() && 0 <= j < blocks[i].len() && #[trigger] account_key(blocks[i][j])
            == key
}

/// Whether a list of accounts holds the account of a key.
pub open spec fn lists_key(accounts: Seq<Seq<u8>>, key: Seq<Seq<char>>) -> bool {
    exists|j: int| 0 <= j < accounts.len() && #[trigger] account_key(accounts[j]) == key
}

/// Marking a list of accounts sets the keys of the accounts to 1 and leaves
/// every other key as it was.
pub proof fn lemma_marking(
    state: Map<Seq<Seq<char>>, int>,
    accounts: Seq<Seq<u8>>,
    key: Seq<Seq<char>>,
)
    ensures
        run(Policy::Overwrite, state, account_changes(accounts)).contains_key(key) <==> (
        state.contains_key(key) || lists_key(accounts, key)),
        lists_key(accounts, key) ==> run(Policy::Overwrite, state, account_changes(accounts))[key]
            == 1,
        !lists_key(accounts, key) && state.contains_key(key) ==> run(
            Policy::Overwrite,
            state,
            account_changes(accounts),
        )[key] == state[key],
    decreases accounts.len(),
{
    if accounts.len() > 0 {
        let init = accounts.drop_last();
        assert(account_changes(accounts).drop_last() =~= account_changes(init));
        lemma_marking(state, init, key);
        if lists_key(init, key) {
            let j = choose|j: int| 0 <= j < init.len() && #[trigger] account_key(init[j]) == key;
            assert(account_key(accounts[j]) == key);
        }
        if lists_key(accounts, key) && account_key(accounts.last()) != key {
            let j = choose|j: int|
                0 <= j < accounts.len() && #[trigger] account_key(accounts[j]) == key;
            assert(account_key(init[j]) == key);
        }
        if account_key(accounts.last()) == key {
            assert(account_key(accounts[accounts.len() - 1]) == key);
        }
    }
}

/// The store of tracked accounts that a run of blocks leads to from an empty
/// store holds the accounts that the blocks list, each with 1, and no other
/// key.
pub proof fn lemma_marked_accounts(blocks: Seq<Seq<Seq<u8>>>, key: Seq<Seq<char>>)
    ensures
        run_blocks(Policy::Overwrite, Map::empty(), account_blocks(blocks)).contains_key(key)
            <==> marks(blocks, key),
        marks(blocks, key) ==> run_blocks(Policy::Overwrite, Map::empty(), account_blocks(blocks))[key]
            == 1,
    decreases blocks.len(),
{
    if blocks.len() > 0 {
        let init = blocks.drop_last();
        let before = run_blocks(Policy::Overwrite, Map::empty(), account_blocks(init));
        assert(account_blocks(blocks).drop_last() =~= account_blocks(init));
        assert(account_blocks(blocks).last() == account_changes(blocks.last()));
        lemma_marked_accounts(init, key);
        lemma_marking(before, blocks.last(), key);
        if marks(init, key) {
            let (i, j) = choose|i: int, j: int|
                0 <= i < init.len() && 0 <= j < init[i].len() && #[trigger] account_key(init[i][j])
                    == key;
            assert(account_key(blocks[i][j]) == key);
        }
        if lists_key(blocks.last(), key) {
            let j = choose|j: int|
                0 <= j < blocks.last().len() && #[trigger] account_key(blocks.last()[j]) == key;
            assert(account_key(blocks[blocks.len() - 1][j]) == key);
        }
        if marks(blocks, key) && !lists_key(blocks.last(), key) {
            let (i, j) = choose|i: int, j: int|
                0 <= i < blocks.len() && 0 <= j < blocks[i].len() && #[trigger] account_key(
                    blocks[i][j],
                ) == key;
            if i == blocks.len() - 1 {
                assert(account_key(blocks.last()[j]) == key);
            } else {
                assert(account_key(init[i][j]) == key);
            }
        }
    } else {
        assert(!marks(blocks, key));
    }
}

/// Replay of the tracked accounts after a reorganisation. Marking the accounts
/// of a block takes the store from a state to the run of the block's changes on
/// that state. So where the canonical blocks are discarded and the store is
/// back in the state that the common blocks led to, whether it was kept or is
/// rebuilt from the deltas of the common blocks alone, and the accounts of the
/// alternate blocks are then marked block after block, the store ends in the
/// state that marking the accounts of the common and then of the alternate
/// blocks from an empty store ends in. It then holds with 1 the accounts that
/// the common and the alternate blocks list and no other key: what only a
/// discarded block had marked is marked no more. The numbers of canonical and
/// of alternate blocks are free.
pub proof fn lemma_accounts_reorg(
    common: Seq<Seq<Seq<u8>>>,
    canonical: Seq<Seq<Seq<u8>>>,
    alternate: Seq<Seq<Seq<u8>>>,
)
    ensures
        run_blocks(
            Policy::Overwrite,
            replayed(
                Map::empty(),
                run_deltas(
                    Policy::Overwrite,
                    Map::empty(),
                    flattened(account_blocks(common + canonical)),
                ).take(flattened(account_blocks(common)).len() as int),
            ),
            account_blocks(alternate),
        ) == run_blocks(Policy::Overwrite, Map::empty(), account_blocks(common + alternate)),
        run_blocks(
            Policy::Overwrite,
            run_blocks(Policy::Overwrite, Map::empty(), account_blocks(common)),
            account_blocks(alternate),
        ) == run_blocks(Policy::Overwrite, Map::empty(), account_blocks(common + alternate)),
        forall|key: Seq<Seq<char>>|
            run_blocks(
                Policy::Overwrite,
                run_blocks(Policy::Overwrite, Map::empty(), account_blocks(common)),
                account_blocks(alternate),
            ).contains_key(key) <==> #[trigger] marks(common + alternate, key),
{
    assert(account_blocks(common + canonical) =~= account_blocks(common) + account_blocks(
        canonical,
    ));
    assert(account_blocks(common + alternate) =~= account_blocks(common) + account_blocks(
        alternate,
    ));
    lemma_reorg_replay_blocks(
        Policy::Overwrite,
        account_blocks(common),
        account_blocks(canonical),
        account_blocks(alternate),
    );
    assert forall|key: Seq<Seq<char>>|
        run_blocks(
            Policy::Overwrite,
            Map::empty(),
            account_blocks(common + alternate),
        ).contains_key(key) <==> #[trigger] marks(common + alternate, key) by {
        lemma_marked_accounts(common + alternate, key);
    }
}

} // verus!
