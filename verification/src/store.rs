//! Keyed stores that accumulate the events of a chain and record every change
//! as a delta.
//!
//! A store maps composite keys to integers under one of two merge policies. The
//! only way to change it is to apply a change at an ordinal; each application
//! records a delta, and the state of a store is what its deltas, replayed in
//! order, lead to.

use crate::bigint::BigInt;
use crate::error::Error;
use vstd::prelude::*;

verus! {

/// How a store merges a new value into the one it holds.
#[derive(Clone, Copy, Debug, PartialEq, Eq, Structural)]
pub enum Policy {
    /// The new value is the old one plus the amount; a key never seen holds
    /// zero.
    Add,
    /// The new value replaces the old one.
    Overwrite,
}

/// One change of a store: at this ordinal the key went from the old value to
/// the new one. The old value is `None` where the key held nothing.
#[derive(Debug, PartialEq, Eq)]
pub struct Delta {
    pub key: Vec<String>,
    pub ordinal: u64,
    pub old_value: Option<BigInt>,
    pub new_value: BigInt,
}

/// What a [`Delta`] holds.
pub struct DeltaModel {
    pub key: Seq<Seq<char>>,
    pub ordinal: u64,
    pub old_value: Option<int>,
    pub new_value: int,
}

impl View for Delta {
    type V = DeltaModel;

    open spec fn view(&self) -> DeltaModel {
        DeltaModel {
            key: self.key.deep_view(),
            ordinal: self.ordinal,
            old_value: match self.old_value {
                Some(v) => Some(v@),
                None => None,
            },
            new_value: self.new_value@,
        }
    }
}

impl DeepView for Delta {
    type V = DeltaModel;

    open spec fn deep_view(&self) -> DeltaModel {
        self@
    }
}

/// A change asked of a store: merge the amount into the key at the ordinal.
pub struct Change {
    pub ordinal: u64,
    pub key: Seq<Seq<char>>,
    pub amount: int,
}

/// What a read of a key returns: the value held, else zero in an additive
/// store and nothing in an overwriting one.
pub open spec fn read(policy: Policy, state: Map<Seq<Seq<char>>, int>, key: Seq<Seq<char>>)
    -> Option<int> {
    if state.contains_key(key) {
        Some(state[key])
    } else if policy == Policy::Add {
        Some(0)
    } else {
        None
    }
}

/// The value that a key holds after an amount was merged into it.
pub open spec fn merged(
    policy: Policy,
    state: Map<Seq<Seq<char>>, int>,
    key: Seq<Seq<char>>,
    amount: int,
) -> int {
    match policy {
        Policy::Add => (if state.contains_key(key) {
            state[key]
        } else {
            0
        }) + amount,
        Policy::Overwrite => amount,
    }
}

/// The state after one change.
pub open spec fn applied(policy: Policy, state: Map<Seq<Seq<char>>, int>, change: Change) -> Map<
    Seq<Seq<char>>,
    int,
> {
    state.insert(change.key, merged(policy, state, change.key, change.amount))
}

/// The delta that one change records.
pub open spec fn delta_of(policy: Policy, state: Map<Seq<Seq<char>>, int>, change: Change)
    -> DeltaModel {
    DeltaModel {
        key: change.key,
        ordinal: change.ordinal,
        old_value: read(policy, state, change.key),
        new_value: merged(policy, state, change.key, change.amount),
    }
}

/// The state after a run of changes, applied in order.
pub open spec fn run(policy: Policy, state: Map<Seq<Seq<char>>, int>, changes: Seq<Change>) -> Map<
    Seq<Seq<char>>,
    int,
>
    decreases changes.len(),
{
    if changes.len() == 0 {
        state
    } else {
        applied(policy, run(policy, state, changes.drop_last()), changes.last())
    }
}

/// The deltas that a run of changes records, in order.
pub open spec fn run_deltas(
    policy: Policy,
    state: Map<Seq<Seq<char>>, int>,
    changes: Seq<Change>,
) -> Seq<DeltaModel>
    decreases changes.len(),
{
    if changes.len() == 0 {
        Seq::empty()
    } else {
        run_deltas(policy, state, changes.drop_last()).push(
            delta_of(policy, run(policy, state, changes.drop_last()), changes.last()),
        )
    }
}

/// The state that a history of deltas leads to: every delta, in order, puts
/// its new value at its key.
pub open spec fn replayed(state: Map<Seq<Seq<char>>, int>, deltas: Seq<DeltaModel>) -> Map<
    Seq<Seq<char>>,
    int,
>
    decreases deltas.len(),
{
    if deltas.len() == 0 {
        state
    } else {
        replayed(state, deltas.drop_last()).insert(deltas.last().key, deltas.last().new_value)
    }
}

/// The ordinals never fall from one delta to the next.
pub open spec fn ordinals_rise(deltas: Seq<DeltaModel>) -> bool {
    forall|i: int, j: int|
        0 <= i <= j < deltas.len() ==> (#[trigger] deltas[i]).ordinal <= (
        #[trigger] deltas[j]).ordinal
}

/// The lowest ordinal at which the next change of the block may be applied:
/// that of the last delta recorded, or zero.
pub open spec fn floor_of(deltas: Seq<DeltaModel>) -> u64 {
    if deltas.len() == 0 {
        0
    } else {
        deltas.last().ordinal
    }
}

/// One key of a store and the value it holds.
struct Entry {
    key: Vec<String>,
    value: BigInt,
}

/// A keyed accumulator: its keys, their current values, and the deltas
/// recorded since the block began.
pub struct Store {
    policy: Policy,
    entries: Vec<Entry>,
    deltas: Vec<Delta>,
    state: Ghost<Map<Seq<Seq<char>>, int>>,
}

/// The key of the entry at an index.
spec fn entry_key(entries: Seq<Entry>, i: int) -> Seq<Seq<char>> {
    entries[i].key.deep_view()
}

/// Whether two keys have the same segments.
pub fn same_key(a: &Vec<String>, b: &Vec<String>) -> (r: bool)
    ensures
        r == (a.deep_view() == b.deep_view()),
{
    if a.len() != b.len() {
        assert(a.deep_view().len() != b.deep_view().len());
        return false;
    }
    let mut i: usize = 0;
    while i < a.len()
        invariant
            i <= a@.len(),
            a@.len() == b@.len(),
            forall|k: int| 0 <= k < i ==> a.deep_view()[k] == b.deep_view()[k],
        decreases a@.len() - i,
    {
        if a[i] != b[i] {
            assert(a.deep_view()[i as int] == a@[i as int]@);
            assert(b.deep_view()[i as int] == b@[i as int]@);
            return false;
        }
        assert(a.deep_view()[i as int] == a@[i as int]@);
        assert(b.deep_view()[i as int] == b@[i as int]@);
        i = i + 1;
    }
    assert(a.deep_view() =~= b.deep_view());
    true
}

/// A copy of a key.
pub fn copy_key(key: &Vec<String>) -> (r: Vec<String>)
    ensures
        r.deep_view() == key.deep_view(),
{
    let mut r: Vec<String> = Vec::new();
    let mut i: usize = 0;
    while i < key.len()
        invariant
            i <= key@.len(),
            r@.len() == i,
            forall|k: int| 0 <= k < i ==> r@[k]@ == key@[k]@,
        decreases key@.len() - i,
    {
        r.push(key[i].clone());
        i = i + 1;
    }
    assert(r.deep_view() =~= key.deep_view());
    r
}

impl Store {
    /// The merge policy.
    pub closed spec fn policy_of(&self) -> Policy {
        self.policy
    }

    /// The value of every key that was ever written.
    pub closed spec fn state(&self) -> Map<Seq<Seq<char>>, int> {
        self.state@
    }

    /// The deltas recorded since the block began, in order.
    pub closed spec fn recorded(&self) -> Seq<DeltaModel> {
        self.deltas.deep_view()
    }

    /// The entries hold the state, one entry for each key, and the deltas are
    /// in order.
    pub closed spec fn wf(&self) -> bool {
        &&& forall|i: int|
            0 <= i < self.entries@.len() ==> self.state@.contains_key(
                #[trigger] entry_key(self.entries@, i),
            ) && self.state@[entry_key(self.entries@, i)] == self.entries@[i].value@
        &&& forall|k: Seq<Seq<char>>| #[trigger]
            self.state@.contains_key(k) ==> exists|i: int|
                0 <= i < self.entries@.len() && #[trigger] entry_key(self.entries@, i) == k
        &&& forall|i: int, j: int|
            0 <= i < j < self.entries@.len() ==> #[trigger] entry_key(self.entries@, i)
                != #[trigger] entry_key(self.entries@, j)
        &&& ordinals_rise(self.deltas.deep_view())
    }

    /// A store that holds the entries and the state of a well-formed one is
    /// well formed where its deltas are in order.
    proof fn lemma_same_entries(&self, other: &Store)
        requires
            other.wf(),
            self.entries@ == other.entries@,
            self.state@ == other.state@,
            ordinals_rise(self.deltas.deep_view()),
        ensures
            self.wf(),
    {
        assert forall|k: Seq<Seq<char>>| #[trigger] self.state@.contains_key(k) implies exists|
            i: int,
        |
            0 <= i < self.entries@.len() && #[trigger] entry_key(self.entries@, i) == k by {
            let w = choose|i: int|
                0 <= i < other.entries@.len() && #[trigger] entry_key(other.entries@, i) == k;
            assert(entry_key(self.entries@, w) == k);
        }
        assert forall|i: int| 0 <= i < self.entries@.len() implies self.state@.contains_key(
            #[trigger] entry_key(self.entries@, i),
        ) && self.state@[entry_key(self.entries@, i)] == self.entries@[i].value@ by {
            assert(entry_key(other.entries@, i) == entry_key(self.entries@, i));
        }
        assert forall|i: int, j: int| 0 <= i < j < self.entries@.len() implies #[trigger] entry_key(
            self.entries@,
            i,
        ) != #[trigger] entry_key(self.entries@, j) by {
            assert(entry_key(other.entries@, i) != entry_key(other.entries@, j));
        }
    }

    /// An empty store.
    pub fn new(policy: Policy) -> (store: Store)
        ensures
            store.wf(),
            store.policy_of() == policy,
            store.state() == Map::<Seq<Seq<char>>, int>::empty(),
            store.recorded() == Seq::<DeltaModel>::empty(),
    {
        let store = Store {
            policy,
            entries: Vec::new(),
            deltas: Vec::new(),
            state: Ghost(Map::empty()),
        };
        assert(store.deltas.deep_view() =~= Seq::<DeltaModel>::empty());
        store
    }

    /// The merge policy.
    pub fn policy(&self) -> (policy: Policy)
        ensures
            policy == self.policy_of(),
    {
        self.policy
    }

    /// The index of the entry of a key, where the key was ever written.
    fn find(&self, key: &Vec<String>) -> (r: Option<usize>)
        requires
            self.wf(),
        ensures
            r matches Some(i) ==> i < self.entries@.len() && entry_key(self.entries@, i as int)
                == key.deep_view(),
            r is Some <==> self.state@.contains_key(key.deep_view()),
    {
        let mut i: usize = 0;
        while i < self.entries.len()
            invariant
                self.wf(),
                i <= self.entries@.len(),
                forall|k: int| 0 <= k < i ==> #[trigger] entry_key(self.entries@, k) != key.deep_view(),
            decreases self.entries@.len() - i,
        {
            if same_key(&self.entries[i].key, key) {
                assert(entry_key(self.entries@, i as int) == key.deep_view());
                return Some(i);
            }
            i = i + 1;
        }
        None
    }

    /// The latest value of a key: the value held, else zero in an additive
    /// store and nothing in an overwriting one.
    pub fn get_last(&self, key: &Vec<String>) -> (r: Option<BigInt>)
        requires
            self.wf(),
        ensures
            match r {
                Some(v) => read(self.policy_of(), self.state(), key.deep_view()) == Some(v@),
                None => read(self.policy_of(), self.state(), key.deep_view()) is None,
            },
    {
        match self.find(key) {
            Some(i) => Some(self.entries[i].value.clone()),
            None => match self.policy {
                Policy::Add => Some(BigInt::zero()),
                Policy::Overwrite => None,
            },
        }
    }

    /// Puts a value at a key without recording a delta.
    fn put(&mut self, key: &Vec<String>, value: BigInt)
        requires
            old(self).wf(),
        ensures
            final(self).wf(),
            final(self).policy == old(self).policy,
            final(self).deltas == old(self).deltas,
            final(self).state@ == old(self).state@.insert(key.deep_view(), value@),
    {
        let ghost k = key.deep_view();
        let ghost before = self.entries@;
        let ghost v = value@;
        match self.find(key) {
            Some(i) => {
                self.entries.set(i, Entry { key: copy_key(key), value });
                self.state = Ghost(self.state@.insert(k, v));
                proof {
                    assert forall|j: int| 0 <= j < self.entries@.len() implies #[trigger] entry_key(
                        self.entries@,
                        j,
                    ) == entry_key(before, j) by {}
                    assert forall|q: Seq<Seq<char>>| #[trigger]
                        self.state@.contains_key(q) implies exists|j: int|
                        0 <= j < self.entries@.len() && #[trigger] entry_key(self.entries@, j)
                            == q by {
                        if q == k {
                            assert(entry_key(self.entries@, i as int) == q);
                        } else {
                            let j = choose|j: int|
                                0 <= j < before.len() && #[trigger] entry_key(before, j) == q;
                            assert(entry_key(self.entries@, j) == q);
                        }
                    }
                }
            },
            None => {
                self.entries.push(Entry { key: copy_key(key), value });
                self.state = Ghost(self.state@.insert(k, v));
                proof {
                    let n = before.len() as int;
                    assert(entry_key(self.entries@, n) == k);
                    assert forall|j: int| 0 <= j < n implies #[trigger] entry_key(self.entries@, j)
                        == entry_key(before, j) by {}
                    assert forall|q: Seq<Seq<char>>| #[trigger]
                        self.state@.contains_key(q) implies exists|j: int|
                        0 <= j < self.entries@.len() && #[trigger] entry_key(self.entries@, j)
                            == q by {
                        if q == k {
                            assert(entry_key(self.entries@, n) == q);
                        } else {
                            let j = choose|j: int|
                                0 <= j < before.len() && #[trigger] entry_key(before, j) == q;
                            assert(entry_key(self.entries@, j) == q);
                        }
                    }
                }
            },
        }
    }

    /// Merges an amount into a key at an ordinal and records the delta.
    ///
    /// The changes of one block are applied in ascending order of ordinal; a
    /// change at the ordinal of the one before it is taken in its turn. A change
    /// at a lower ordinal than the last one recorded is refused and leaves the
    /// store as it was.
    pub fn apply(&mut self, ordinal: u64, key: &Vec<String>, amount: &BigInt) -> (r: Result<
        (),
        Error,
    >)
        requires
            old(self).wf(),
        ensures
            final(self).wf(),
            final(self).policy_of() == old(self).policy_of(),
            r is Ok <==> ordinal >= floor_of(old(self).recorded()),
            r is Ok ==> {
                let change = Change { ordinal, key: key.deep_view(), amount: amount@ };
                &&& final(self).state() == applied(old(self).policy_of(), old(self).state(), change)
                &&& final(self).recorded() == old(self).recorded().push(
                    delta_of(old(self).policy_of(), old(self).state(), change),
                )
            },
            r matches Err(e) ==> e == Error::OrdinalRegression && final(self).state() == old(
                self,
            ).state() && final(self).recorded() == old(self).recorded(),
    {
        let count = self.deltas.len();
        if count > 0 {
            assert(self.deltas.deep_view().last() == self.deltas@[count - 1]@);
            if ordinal < self.deltas[count - 1].ordinal {
                return Err(Error::OrdinalRegression);
            }
        }
        let old_value = self.get_last(key);
        let new_value = match self.policy {
            Policy::Add => match &old_value {
                Some(held) => held.plus(amount),
                None => amount.clone(),
            },
            Policy::Overwrite => amount.clone(),
        };
        let delta = Delta {
            key: copy_key(key),
            ordinal,
            old_value,
            new_value: new_value.clone(),
        };
        let ghost before = self.deltas.deep_view();
        self.put(key, new_value);
        let ghost filled = *self;
        self.deltas.push(delta);
        proof {
            assert(self.deltas.deep_view() =~= before.push(delta@));
            assert forall|i: int, j: int| 0 <= i <= j < self.deltas.deep_view().len() implies (
            #[trigger] self.deltas.deep_view()[i]).ordinal <= (
            #[trigger] self.deltas.deep_view()[j]).ordinal by {
                if j < before.len() {
                    assert(before[i].ordinal <= before[j].ordinal);
                } else if i < before.len() {
                    assert(before[i].ordinal <= before[before.len() - 1].ordinal);
                }
            }
            self.lemma_same_entries(&filled);
        }
        Ok(())
    }

    /// The lowest ordinal at which the next change may be applied.
    pub fn floor(&self) -> (floor: u64)
        requires
            self.wf(),
        ensures
            floor == floor_of(self.recorded()),
    {
        let count = self.deltas.len();
        if count == 0 {
            0
        } else {
            assert(self.deltas.deep_view().last() == self.deltas@[count - 1]@);
            self.deltas[count - 1].ordinal
        }
    }

    /// The deltas recorded since the block began, in the order in which they
    /// were applied.
    pub fn deltas(&self) -> (deltas: &Vec<Delta>)
        requires
            self.wf(),
        ensures
            deltas.deep_view() == self.recorded(),
            ordinals_rise(self.recorded()),
    {
        &self.deltas
    }

    /// Ends the block: hands out its deltas and starts the next block with
    /// none. The state stays.
    pub fn take_deltas(&mut self) -> (deltas: Vec<Delta>)
        requires
            old(self).wf(),
        ensures
            final(self).wf(),
            final(self).policy_of() == old(self).policy_of(),
            final(self).state() == old(self).state(),
            final(self).recorded() == Seq::<DeltaModel>::empty(),
            deltas.deep_view() == old(self).recorded(),
            ordinals_rise(deltas.deep_view()),
    {
        let mut deltas: Vec<Delta> = Vec::new();
        let ghost before = *self;
        core::mem::swap(&mut self.deltas, &mut deltas);
        proof {
            assert(self.deltas.deep_view() =~= Seq::<DeltaModel>::empty());
            self.lemma_same_entries(&before);
        }
        deltas
    }

    /// Rebuilds a store from a history of deltas: the state is what the deltas,
    /// replayed in order from an empty store, lead to. The store returned has
    /// recorded no delta of its own.
    pub fn replay(policy: Policy, history: &Vec<Delta>) -> (store: Store)
        ensures
            store.wf(),
            store.policy_of() == policy,
            store.state() == replayed(Map::empty(), history.deep_view()),
            store.recorded() == Seq::<DeltaModel>::empty(),
    {
        let mut store = Store::new(policy);
        let ghost models = history.deep_view();
        let mut i: usize = 0;
        assert(models.take(0) =~= Seq::<DeltaModel>::empty());
        while i < history.len()
            invariant
                i <= history@.len(),
                models == history.deep_view(),
                store.wf(),
                store.policy == policy,
                store.deltas.deep_view() == Seq::<DeltaModel>::empty(),
                store.state@ == replayed(Map::empty(), models.take(i as int)),
            decreases history@.len() - i,
        {
            proof {
                assert(models[i as int] == history@[i as int]@);
                assert(models.take(i + 1).drop_last() =~= models.take(i as int));
            }
            store.put(&history[i].key, history[i].new_value.clone());
            i = i + 1;
        }
        assert(models.take(history@.len() as int) =~= models);
        store
    }
}

/// The ordinals of a run of changes never fall.
pub open spec fn changes_in_order(changes: Seq<Change>) -> bool {
    forall|i: int, j: int|
        0 <= i <= j < changes.len() ==> (#[trigger] changes[i]).ordinal <= (
        #[trigger] changes[j]).ordinal
}

/// A run of changes records one delta for each change, and the delta of a
/// change is taken against the state that the changes before it led to.
pub proof fn lemma_delta_at(
    policy: Policy,
    state: Map<Seq<Seq<char>>, int>,
    changes: Seq<Change>,
    i: int,
)
    requires
        0 <= i < changes.len(),
    ensures
        run_deltas(policy, state, changes).len() == changes.len(),
        run_deltas(policy, state, changes)[i] == delta_of(
            policy,
            run(policy, state, changes.take(i)),
            changes[i],
        ),
    decreases changes.len(),
{
    let init = changes.drop_last();
    lemma_deltas_len(policy, state, init);
    if i == changes.len() - 1 {
        assert(changes.take(i) =~= init);
    } else {
        lemma_delta_at(policy, state, init, i);
        assert(init.take(i) =~= changes.take(i));
    }
}

/// A run of changes records one delta for each change.
pub proof fn lemma_deltas_len(
    policy: Policy,
    state: Map<Seq<Seq<char>>, int>,
    changes: Seq<Change>,
)
    ensures
        run_deltas(policy, state, changes).len() == changes.len(),
    decreases changes.len(),
{
    if changes.len() > 0 {
        lemma_deltas_len(policy, state, changes.drop_last());
    }
}

/// A run of changes is the run of its first part followed by the run of the
/// rest, and the deltas of the first part are the first deltas of the whole.
pub proof fn lemma_run_in_parts(
    policy: Policy,
    state: Map<Seq<Seq<char>>, int>,
    first: Seq<Change>,
    rest: Seq<Change>,
)
    ensures
        run(policy, state, first + rest) == run(policy, run(policy, state, first), rest),
        run_deltas(policy, state, first + rest) == run_deltas(policy, state, first) + run_deltas(
            policy,
            run(policy, state, first),
            rest,
        ),
    decreases rest.len(),
{
    if rest.len() == 0 {
        assert(first + rest =~= first);
        assert(run_deltas(policy, state, first) + Seq::<DeltaModel>::empty() =~= run_deltas(
            policy,
            state,
            first,
        ));
    } else {
        let init = rest.drop_last();
        assert((first + rest).drop_last() =~= first + init);
        assert((first + rest).last() == rest.last());
        lemma_run_in_parts(policy, state, first, init);
        let middle = run(policy, state, first);
        assert(run_deltas(policy, state, first + rest) =~= run_deltas(policy, state, first)
            + run_deltas(policy, middle, rest));
    }
}

/// The state of a store is fully determined by the history of its deltas:
/// replaying the deltas that a run of changes recorded leads to the state that
/// the run itself led to.
pub proof fn lemma_state_is_replay(
    policy: Policy,
    state: Map<Seq<Seq<char>>, int>,
    changes: Seq<Change>,
)
    ensures
        replayed(state, run_deltas(policy, state, changes)) == run(policy, state, changes),
    decreases changes.len(),
{
    if changes.len() > 0 {
        let init = changes.drop_last();
        lemma_state_is_replay(policy, state, init);
        let deltas = run_deltas(policy, state, changes);
        assert(deltas.drop_last() =~= run_deltas(policy, state, init));
    }
}

/// Replay after a reorganisation. A chain was evaluated from genesis through
/// a common part and a canonical part. Where the canonical part is discarded,
/// that is, the history of deltas is cut back to the deltas of the common part
/// and the store is rebuilt from it, evaluating an alternate part leads to the
/// very state that evaluating the common and the alternate part from genesis
/// leads to.
pub proof fn lemma_reorg_replay(
    policy: Policy,
    common: Seq<Change>,
    canonical: Seq<Change>,
    alternate: Seq<Change>,
)
    ensures
        run(
            policy,
            replayed(
                Map::empty(),
                run_deltas(policy, Map::empty(), common + canonical).take(common.len() as int),
            ),
            alternate,
        ) == run(policy, Map::empty(), common + alternate),
{
    let genesis = Map::<Seq<Seq<char>>, int>::empty();
    lemma_run_in_parts(policy, genesis, common, canonical);
    lemma_run_in_parts(policy, genesis, common, alternate);
    lemma_deltas_len(policy, genesis, common);
    let kept = run_deltas(policy, genesis, common);
    let dropped = run_deltas(policy, run(policy, genesis, common), canonical);
    assert((kept + dropped).take(common.len() as int) =~= kept);
    lemma_state_is_replay(policy, genesis, common);
}

/// Overwriting is idempotent: the same change applied a second time leaves the
/// state as the first application left it.
pub proof fn lemma_overwrite_idempotent(state: Map<Seq<Seq<char>>, int>, change: Change)
    ensures
        applied(Policy::Overwrite, applied(Policy::Overwrite, state, change), change) == applied(
            Policy::Overwrite,
            state,
            change,
        ),
{
    assert(applied(Policy::Overwrite, applied(Policy::Overwrite, state, change), change)
        =~= applied(Policy::Overwrite, state, change));
}

/// A repeated overwrite is no change: a run that ends with the same change
/// twice leads to the state that the run with the change once leads to.
pub proof fn lemma_repeated_overwrite(
    state: Map<Seq<Seq<char>>, int>,
    changes: Seq<Change>,
    change: Change,
)
    ensures
        run(Policy::Overwrite, state, changes.push(change).push(change)) == run(
            Policy::Overwrite,
            state,
            changes.push(change),
        ),
{
    let once = changes.push(change);
    let twice = once.push(change);
    assert(twice.drop_last() =~= once);
    lemma_overwrite_idempotent(run(Policy::Overwrite, state, changes), change);
    assert(once.drop_last() =~= changes);
}

/// In an overwriting store the last write wins: after a run of changes that
/// ends with a change of a key, the key holds the amount of that change.
pub proof fn lemma_last_write_wins(state: Map<Seq<Seq<char>>, int>, changes: Seq<Change>)
    requires
        changes.len() > 0,
    ensures
        read(Policy::Overwrite, run(Policy::Overwrite, state, changes), changes.last().key) == Some(
            changes.last().amount,
        ),
{
}

/// Deltas come out in the order of their ordinals: where the ordinals of the
/// changes never fall, neither do those of the deltas they record, and each
/// delta carries the ordinal and the key of its change.
pub proof fn lemma_deltas_in_order(
    policy: Policy,
    state: Map<Seq<Seq<char>>, int>,
    changes: Seq<Change>,
)
    requires
        changes_in_order(changes),
    ensures
        run_deltas(policy, state, changes).len() == changes.len(),
        forall|i: int|
            0 <= i < changes.len() ==> (#[trigger] run_deltas(policy, state, changes)[i]).ordinal
                == changes[i].ordinal && run_deltas(policy, state, changes)[i].key
                == changes[i].key,
        ordinals_rise(run_deltas(policy, state, changes)),
{
    let deltas = run_deltas(policy, state, changes);
    lemma_deltas_len(policy, state, changes);
    assert forall|i: int| 0 <= i < changes.len() implies (#[trigger] deltas[i]).ordinal
        == changes[i].ordinal && deltas[i].key == changes[i].key by {
        lemma_delta_at(policy, state, changes, i);
    }
    assert forall|i: int, j: int| 0 <= i <= j < deltas.len() implies (#[trigger] deltas[i]).ordinal
        <= (#[trigger] deltas[j]).ordinal by {
        assert(changes[i].ordinal <= changes[j].ordinal);
    }
}

/// Changes that leave a key alone leave its value alone.
proof fn lemma_untouched(
    policy: Policy,
    state: Map<Seq<Seq<char>>, int>,
    changes: Seq<Change>,
    key: Seq<Seq<char>>,
)
    requires
        forall|k: int| 0 <= k < changes.len() ==> (#[trigger] changes[k]).key != key,
    ensures
        read(policy, run(policy, state, changes), key) == read(policy, state, key),
    decreases changes.len(),
{
    if changes.len() > 0 {
        let init = changes.drop_last();
        assert forall|k: int| 0 <= k < init.len() implies (#[trigger] init[k]).key != key by {
            assert(init[k] == changes[k]);
        }
        lemma_untouched(policy, state, init, key);
        assert(changes.last() == changes[changes.len() - 1]);
    }
}

/// A later change of a key builds on the result of the earlier one: of two
/// changes of one key with no change of that key between them, the delta of
/// the second starts from the value that the delta of the first ended with, and
/// ends with the second amount merged into that value.
pub proof fn lemma_delta_chain(
    policy: Policy,
    state: Map<Seq<Seq<char>>, int>,
    changes: Seq<Change>,
    i: int,
    j: int,
)
    requires
        0 <= i < j < changes.len(),
        changes[i].key == changes[j].key,
        forall|k: int| i < k < j ==> (#[trigger] changes[k]).key != changes[i].key,
    ensures
        run_deltas(policy, state, changes)[j].old_value == Some(
            run_deltas(policy, state, changes)[i].new_value,
        ),
        run_deltas(policy, state, changes)[j].new_value == (match policy {
            Policy::Add => run_deltas(policy, state, changes)[i].new_value + changes[j].amount,
            Policy::Overwrite => changes[j].amount,
        }),
{
    let key = changes[i].key;
    lemma_delta_at(policy, state, changes, i);
    lemma_delta_at(policy, state, changes, j);
    let upto = changes.take(i + 1);
    let between = changes.subrange(i + 1, j);
    assert(changes.take(j) =~= upto + between);
    lemma_run_in_parts(policy, state, upto, between);
    assert(upto.drop_last() =~= changes.take(i));
    assert(upto.last() == changes[i]);
    let after_first = run(policy, state, upto);
    assert(after_first == applied(policy, run(policy, state, changes.take(i)), changes[i]));
    assert forall|k: int| 0 <= k < between.len() implies (#[trigger] between[k]).key != key by {
        assert(between[k] == changes[i + 1 + k]);
    }
    lemma_untouched(policy, after_first, between, key);
}

/// The changes of a run of blocks, block after block.
pub open spec fn flattened(blocks: Seq<Seq<Change>>) -> Seq<Change>
    decreases blocks.len(),
{
    if blocks.len() == 0 {
        Seq::empty()
    } else {
        flattened(blocks.drop_last()) + blocks.last()
    }
}

/// The state after a run of blocks: the changes of each block are applied to
/// the state that the blocks before it led to.
pub open spec fn run_blocks(
    policy: Policy,
    state: Map<Seq<Seq<char>>, int>,
    blocks: Seq<Seq<Change>>,
) -> Map<Seq<Seq<char>>, int>
    decreases blocks.len(),
{
    if blocks.len() == 0 {
        state
    } else {
        run(policy, run_blocks(policy, state, blocks.drop_last()), blocks.last())
    }
}

/// The changes of two runs of blocks, one after the other, are the changes of
/// the first followed by those of the second.
pub proof fn lemma_flattened_parts(first: Seq<Seq<Change>>, rest: Seq<Seq<Change>>)
    ensures
        flattened(first + rest) == flattened(first) + flattened(rest),
    decreases rest.len(),
{
    if rest.len() == 0 {
        assert(first + rest =~= first);
        assert(flattened(first) + Seq::<Change>::empty() =~= flattened(first));
    } else {
        assert((first + rest).drop_last() =~= first + rest.drop_last());
        assert((first + rest).last() == rest.last());
        lemma_flattened_parts(first, rest.drop_last());
        assert(flattened(first + rest) =~= flattened(first) + flattened(rest));
    }
}

/// Running blocks one by one is running their changes in one go.
pub proof fn lemma_run_blocks(
    policy: Policy,
    state: Map<Seq<Seq<char>>, int>,
    blocks: Seq<Seq<Change>>,
)
    ensures
        run_blocks(policy, state, blocks) == run(policy, state, flattened(blocks)),
    decreases blocks.len(),
{
    if blocks.len() > 0 {
        lemma_run_blocks(policy, state, blocks.drop_last());
        lemma_run_in_parts(policy, state, flattened(blocks.drop_last()), blocks.last());
    }
}

/// Replay after a reorganisation, over any number of blocks. A chain was
/// evaluated from genesis through its common blocks and then through the
/// canonical blocks. Where the canonical blocks are discarded, that is, the
/// history of deltas is cut back to the deltas of the common blocks and the
/// store is rebuilt from it, evaluating the alternate blocks one after the other
/// leads to the very state that evaluating the common blocks and then the
/// alternate blocks from genesis leads to. The numbers of canonical and of
/// alternate blocks are free.
pub proof fn lemma_reorg_replay_blocks(
    policy: Policy,
    common: Seq<Seq<Change>>,
    canonical: Seq<Seq<Change>>,
    alternate: Seq<Seq<Change>>,
)
    ensures
        run_blocks(
            policy,
            replayed(
                Map::empty(),
                run_deltas(policy, Map::empty(), flattened(common + canonical)).take(
                    flattened(common).len() as int,
                ),
            ),
            alternate,
        ) == run_blocks(policy, Map::empty(), common + alternate),
        replayed(
            Map::empty(),
            run_deltas(policy, Map::empty(), flattened(common + canonical)).take(
                flattened(common).len() as int,
            ),
        ) == run_blocks(policy, Map::empty(), common),
{
    let genesis = Map::<Seq<Seq<char>>, int>::empty();
    lemma_flattened_parts(common, canonical);
    lemma_flattened_parts(common, alternate);
    lemma_reorg_replay(policy, flattened(common), flattened(canonical), flattened(alternate));
    let rebuilt = replayed(
        genesis,
        run_deltas(policy, genesis, flattened(common) + flattened(canonical)).take(
            flattened(common).len() as int,
        ),
    );
    lemma_run_blocks(policy, rebuilt, alternate);
    lemma_run_blocks(policy, genesis, common + alternate);
    lemma_run_blocks(policy, genesis, common);
    lemma_run_in_parts(policy, genesis, flattened(common), flattened(canonical));
    lemma_deltas_len(policy, genesis, flattened(common));
    let kept = run_deltas(policy, genesis, flattened(common));
    let dropped = run_deltas(policy, run(policy, genesis, flattened(common)), flattened(canonical));
    assert((kept + dropped).take(flattened(common).len() as int) =~= kept);
    lemma_state_is_replay(policy, genesis, flattened(common));
}

} // verus!
