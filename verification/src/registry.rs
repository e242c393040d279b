//! The roles of the known contracts.

use crate::error::Error;
use vstd::prelude::*;

verus! {

/// What kind of contract an address is. The role selects the decoders that are
/// tried on its logs.
#[derive(Clone, Copy, Debug, PartialEq, Eq, Structural)]
pub enum Role {
    Market,
    Auditor,
    Factory,
    Plugin,
    ProposalManager,
    Oracle,
}

/// The addresses of one deployment, by role.
#[derive(Clone, Debug, PartialEq, Eq)]
pub struct Deployment {
    pub markets: Vec<Vec<u8>>,
    pub auditors: Vec<Vec<u8>>,
    pub factories: Vec<Vec<u8>>,
    pub plugins: Vec<Vec<u8>>,
    pub proposal_managers: Vec<Vec<u8>>,
    pub oracles: Vec<Vec<u8>>,
}

/// One registered address and its role.
struct Registration {
    address: Vec<u8>,
    role: Role,
}

/// The registered role of an address, if it has one.
spec fn role_among(entries: Seq<Registration>, address: Seq<u8>) -> Option<Role>
    decreases entries.len(),
{
    if entries.len() == 0 {
        None
    } else if entries.last().address@ == address {
        Some(entries.last().role)
    } else {
        role_among(entries.drop_last(), address)
    }
}

/// The role of an address when the set of tracked addresses is taken into
/// account: its registered role, else market where it is tracked.
pub open spec fn role_or_tracked(registered: Option<Role>, is_tracked: bool) -> Option<Role> {
    match registered {
        Some(role) => Some(role),
        None => if is_tracked {
            Some(Role::Market)
        } else {
            None
        },
    }
}

/// The deep view of a byte string is its view.
pub proof fn lemma_bytes_view(bytes: Vec<u8>)
    ensures
        bytes.deep_view() == bytes@,
{
    assert(bytes.deep_view() =~= bytes@);
}

/// The deep view of a list of byte strings holds their views.
pub proof fn lemma_rows_view(rows: Vec<Vec<u8>>)
    ensures
        rows.deep_view().len() == rows@.len(),
        forall|k: int| 0 <= k < rows@.len() ==> #[trigger] rows.deep_view()[k] == rows@[k]@,
{
    assert forall|k: int| 0 <= k < rows@.len() implies #[trigger] rows.deep_view()[k]
        == rows@[k]@ by {
        lemma_bytes_view(rows@[k]);
    }
}

/// Whether two byte strings are the same.
pub fn same_bytes(a: &[u8], b: &[u8]) -> (r: bool)
    ensures
        r == (a@ == b@),
{
    if a.len() != b.len() {
        return false;
    }
    let mut i: usize = 0;
    while i < a.len()
        invariant
            i <= a@.len(),
            a@.len() == b@.len(),
            forall|k: int| 0 <= k < i ==> a@[k] == b@[k],
        decreases a@.len() - i,
    {
        if a[i] != b[i] {
            return false;
        }
        i = i + 1;
    }
    assert(a@ =~= b@);
    true
}

/// A copy of a byte string.
pub fn copy_bytes(bytes: &[u8]) -> (r: Vec<u8>)
    ensures
        r@ == bytes@,
{
    let mut r: Vec<u8> = Vec::new();
    let mut i: usize = 0;
    while i < bytes.len()
        invariant
            i <= bytes@.len(),
            r@ == bytes@.take(i as int),
        decreases bytes@.len() - i,
    {
        r.push(bytes[i]);
        assert(r@ =~= bytes@.take(i + 1));
        i = i + 1;
    }
    assert(bytes@.take(bytes@.len() as int) =~= bytes@);
    r
}

/// Whether a place is the first at which its address stands in a list of
/// addresses.
pub open spec fn first_place(addresses: Seq<Seq<u8>>, place: int) -> bool {
    0 <= place < addresses.len() && forall|k: int|
        0 <= k < place ==> addresses[k] != addresses[place]
}

/// The first place at which a list of addresses holds an address, if it holds
/// it at all.
pub fn place_of(addresses: &Vec<Vec<u8>>, address: &[u8]) -> (r: Option<usize>)
    ensures
        r is Some <==> addresses.deep_view().contains(address@),
        r matches Some(place) ==> first_place(addresses.deep_view(), place as int)
            && addresses.deep_view()[place as int] == address@,
{
    let mut i: usize = 0;
    while i < addresses.len()
        invariant
            i <= addresses@.len(),
            forall|k: int| 0 <= k < i ==> addresses.deep_view()[k] != address@,
        decreases addresses@.len() - i,
    {
        assert(addresses.deep_view()[i as int] == addresses@[i as int]@);
        if same_bytes(addresses[i].as_slice(), address) {
            return Some(i);
        }
        i = i + 1;
    }
    None
}

/// Whether a list of addresses holds an address.
pub fn holds_address(addresses: &Vec<Vec<u8>>, address: &[u8]) -> (r: bool)
    ensures
        r == addresses.deep_view().contains(address@),
{
    let mut i: usize = 0;
    while i < addresses.len()
        invariant
            i <= addresses@.len(),
            forall|k: int| 0 <= k < i ==> addresses.deep_view()[k] != address@,
        decreases addresses@.len() - i,
    {
        assert(addresses.deep_view()[i as int] == addresses@[i as int]@);
        if same_bytes(addresses[i].as_slice(), address) {
            return true;
        }
        i = i + 1;
    }
    false
}

/// The role that a map of roles gives an address, if any.
pub open spec fn role_in(roles: Map<Seq<u8>, Role>, address: Seq<u8>) -> Option<Role> {
    if roles.contains_key(address) {
        Some(roles[address])
    } else {
        None
    }
}

/// Number of buckets that a registry spreads its addresses over.
pub const BUCKETS: usize = 256;

/// The bucket of an address: the sum of its bytes, modulo the number of
/// buckets.
pub open spec fn bucket_of(address: Seq<u8>) -> int
    decreases address.len(),
{
    if address.len() == 0 {
        0
    } else {
        (bucket_of(address.drop_last()) + address.last() as int) % (BUCKETS as int)
    }
}

/// The bucket of an address.
fn bucket(address: &[u8]) -> (b: usize)
    ensures
        b == bucket_of(address@),
        b < BUCKETS,
{
    let mut b: usize = 0;
    let mut i: usize = 0;
    assert(address@.take(0) =~= Seq::<u8>::empty());
    while i < address.len()
        invariant
            i <= address@.len(),
            b < BUCKETS,
            b == bucket_of(address@.take(i as int)),
        decreases address@.len() - i,
    {
        proof {
            assert(address@.take(i + 1).drop_last() =~= address@.take(i as int));
            assert(address@.take(i + 1).last() == address@[i as int]);
        }
        b = (b + address[i] as usize) % BUCKETS;
        i = i + 1;
    }
    assert(address@.take(address@.len() as int) =~= address@);
    b
}

/// Which role each known address has. An address has at most one role.
///
/// The addresses are spread over a fixed number of buckets, so that a lookup
/// reads one bucket only. The view is the map from the registered addresses to
/// their roles.
pub struct Registry {
    buckets: Vec<Vec<Registration>>,
}

/// The registrations in the bucket of an address.
spec fn in_bucket(buckets: Seq<Vec<Registration>>, address: Seq<u8>) -> Seq<Registration> {
    if bucket_of(address) < buckets.len() {
        buckets[bucket_of(address)]@
    } else {
        Seq::empty()
    }
}

impl View for Registry {
    type V = Map<Seq<u8>, Role>;

    closed spec fn view(&self) -> Map<Seq<u8>, Role> {
        Map::new(
            |address: Seq<u8>| role_among(in_bucket(self.buckets@, address), address) is Some,
            |address: Seq<u8>| role_among(in_bucket(self.buckets@, address), address)->0,
        )
    }
}

/// The registered role of an address among the registrations of a bucket.
fn role_in_bucket(entries: &Vec<Registration>, address: &[u8]) -> (role: Option<Role>)
    ensures
        role == role_among(entries@, address@),
{
    let mut i: usize = entries.len();
    assert(entries@.take(i as int) =~= entries@);
    while i > 0
        invariant
            i <= entries@.len(),
            role_among(entries@, address@) == role_among(entries@.take(i as int), address@),
        decreases i,
    {
        i = i - 1;
        proof {
            let upto = entries@.take(i + 1);
            assert(upto.last() == entries@[i as int]);
            assert(upto.drop_last() =~= entries@.take(i as int));
        }
        if same_bytes(entries[i].address.as_slice(), address) {
            return Some(entries[i].role);
        }
    }
    assert(entries@.take(0).len() == 0);
    None
}

impl Registry {
    /// A registry without addresses.
    pub fn new() -> (registry: Registry)
        ensures
            registry@ == Map::<Seq<u8>, Role>::empty(),
    {
        let mut buckets: Vec<Vec<Registration>> = Vec::new();
        let mut i: usize = 0;
        while i < BUCKETS
            invariant
                i <= BUCKETS,
                buckets@.len() == i,
                forall|k: int| 0 <= k < i ==> (#[trigger] buckets@[k])@.len() == 0,
            decreases BUCKETS - i,
        {
            buckets.push(Vec::new());
            i = i + 1;
        }
        let registry = Registry { buckets };
        assert(registry@ =~= Map::<Seq<u8>, Role>::empty());
        registry
    }

    /// The registered role of an address, if it has one.
    pub fn role(&self, address: &[u8]) -> (role: Option<Role>)
        ensures
            role == role_in(self@, address@),
    {
        let b = bucket(address);
        if b < self.buckets.len() {
            role_in_bucket(&self.buckets[b], address)
        } else {
            None
        }
    }

    /// The role of an address when tracked addresses count as markets: the
    /// registered role, else market where the address is tracked.
    pub fn role_with(&self, address: &[u8], is_tracked: bool) -> (role: Option<Role>)
        ensures
            role == role_or_tracked(role_in(self@, address@), is_tracked),
    {
        match self.role(address) {
            Some(role) => Some(role),
            None => if is_tracked {
                Some(Role::Market)
            } else {
                None
            },
        }
    }

    /// Registers an address under a role. An address that already has this
    /// role keeps it; one that has another role is refused, and the registry
    /// stays as it was.
    pub fn register(&mut self, address: &[u8], role: Role) -> (r: Result<(), Error>)
        ensures
            r is Ok <==> (role_in(old(self)@, address@) is None || role_in(old(self)@, address@)
                == Some(role)),
            r is Ok ==> final(self)@ == old(self)@.insert(address@, role),
            r matches Err(e) ==> e == Error::RoleConflict && final(self)@ == old(self)@,
    {
        match self.role(address) {
            Some(held) => {
                if held == role {
                    assert(self@ =~= self@.insert(address@, role));
                    Ok(())
                } else {
                    Err(Error::RoleConflict)
                }
            },
            None => {
                let ghost roles = self@;
                let b = bucket(address);
                while self.buckets.len() <= b
                    invariant
                        self@ == roles,
                    decreases b + 1 - self.buckets@.len(),
                {
                    let ghost before = self.buckets@;
                    self.buckets.push(Vec::new());
                    proof {
                        assert forall|other: Seq<u8>|
                            #[trigger] in_bucket(self.buckets@, other) == in_bucket(
                                before,
                                other,
                            ) by {
                            if bucket_of(other) < before.len() {
                                assert(self.buckets@[bucket_of(other)] == before[bucket_of(other)]);
                            }
                        }
                        assert(self@ =~= roles);
                    }
                }
                let ghost before = self.buckets@;
                let mut entries: Vec<Registration> = Vec::new();
                core::mem::swap(&mut entries, &mut self.buckets[b]);
                entries.push(Registration { address: copy_bytes(address), role });
                let ghost filled = entries@;
                self.buckets.set(b, entries);
                proof {
                    assert(filled.drop_last() =~= before[b as int]@);
                    assert forall|other: Seq<u8>|
                        role_among(#[trigger] in_bucket(self.buckets@, other), other) == (if other
                            == address@ {
                            Some(role)
                        } else {
                            role_among(in_bucket(before, other), other)
                        }) by {
                        if bucket_of(other) < before.len() && bucket_of(other) != b {
                            assert(self.buckets@[bucket_of(other)] == before[bucket_of(other)]);
                        }
                    }
                    assert(self@ =~= roles.insert(address@, role));
                }
                Ok(())
            },
        }
    }
}

/// The place of a role in the order in which a deployment is read.
pub open spec fn rank(role: Role) -> int {
    match role {
        Role::Market => 0,
        Role::Auditor => 1,
        Role::Factory => 2,
        Role::Plugin => 3,
        Role::ProposalManager => 4,
        Role::Oracle => 5,
    }
}

impl Deployment {
    /// The addresses that the deployment lists under a role.
    pub open spec fn listed(&self, role: Role) -> Seq<Seq<u8>> {
        match role {
            Role::Market => self.markets.deep_view(),
            Role::Auditor => self.auditors.deep_view(),
            Role::Factory => self.factories.deep_view(),
            Role::Plugin => self.plugins.deep_view(),
            Role::ProposalManager => self.proposal_managers.deep_view(),
            Role::Oracle => self.oracles.deep_view(),
        }
    }

    /// Whether the deployment lists an address under a role.
    pub open spec fn lists(&self, role: Role, address: Seq<u8>) -> bool {
        self.listed(role).contains(address)
    }

    /// No address is listed under two roles.
    pub open spec fn consistent(&self) -> bool {
        forall|address: Seq<u8>, first: Role, second: Role|
            #![trigger self.lists(first, address), self.lists(second, address)]
            self.lists(first, address) && self.lists(second, address) ==> first == second
    }

    /// The addresses that the deployment lists under a role.
    fn list(&self, role: Role) -> (list: &Vec<Vec<u8>>)
        ensures
            list.deep_view() == self.listed(role),
    {
        match role {
            Role::Market => &self.markets,
            Role::Auditor => &self.auditors,
            Role::Factory => &self.factories,
            Role::Plugin => &self.plugins,
            Role::ProposalManager => &self.proposal_managers,
            Role::Oracle => &self.oracles,
        }
    }
}

/// The role at a place in the order in which a deployment is read.
fn role_at(place: u8) -> (role: Role)
    requires
        place < 6,
    ensures
        rank(role) == place,
{
    if place == 0 {
        Role::Market
    } else if place == 1 {
        Role::Auditor
    } else if place == 2 {
        Role::Factory
    } else if place == 3 {
        Role::Plugin
    } else if place == 4 {
        Role::ProposalManager
    } else {
        Role::Oracle
    }
}

/// Every role has its own rank.
proof fn lemma_rank_tells(first: Role, second: Role)
    ensures
        rank(first) == rank(second) <==> first == second,
        0 <= rank(first) < 6,
{
}

/// The registry holds the roles of rank below `n` as the deployment lists
/// them, and no address is listed under two of them.
spec fn holds_upto(roles: Map<Seq<u8>, Role>, deployment: &Deployment, n: int) -> bool {
    &&& (forall|address: Seq<u8>, role: Role| #[trigger]
        deployment.lists(role, address) ==> (rank(role) < n ==> role_in(roles, address) == Some(
            role,
        )))
    &&& (forall|address: Seq<u8>|
        (#[trigger] role_in(roles, address)) is Some ==> rank(role_in(roles, address)->0) < n
            && deployment.lists(role_in(roles, address)->0, address))
}

impl Registry {
    /// Registers every address of a list under one role, or fails at the first
    /// that has another.
    fn register_all(&mut self, addresses: &Vec<Vec<u8>>, role: Role) -> (r: Result<(), Error>)
        ensures
            r matches Err(e) ==> e == Error::RoleConflict,
            r is Ok ==> forall|other: Seq<u8>|
                #[trigger] role_in(final(self)@, other) == (if addresses.deep_view().contains(
                    other,
                ) {
                    Some(role)
                } else {
                    role_in(old(self)@, other)
                }),
            r is Ok <==> forall|k: int|
                0 <= k < addresses@.len() ==> (role_in(old(self)@, #[trigger] addresses.deep_view()[k])
                    is None || role_in(old(self)@, addresses.deep_view()[k]) == Some(role)),
    {
        let ghost all = addresses.deep_view();
        let ghost start = self@;
        let mut i: usize = 0;
        proof {
            lemma_rows_view(*addresses);
        }
        while i < addresses.len()
            invariant
                i <= addresses@.len(),
                all == addresses.deep_view(),
                start == old(self)@,
                forall|k: int| 0 <= k < addresses@.len() ==> #[trigger] all[k] == addresses@[k]@,
                forall|other: Seq<u8>|
                    #[trigger] role_in(self@, other) == (if all.take(i as int).contains(other) {
                        Some(role)
                    } else {
                        role_in(start, other)
                    }),
                forall|k: int|
                    0 <= k < i ==> (role_in(start, #[trigger] all[k]) is None || role_in(
                        start,
                        all[k],
                    ) == Some(role)),
            decreases addresses@.len() - i,
        {
            let ghost before = self@;
            let ghost address = all[i as int];
            let ghost earlier = all.take(i as int);
            let ghost later = all.take(i + 1);
            proof {
                assert(address == addresses@[i as int]@);
                if earlier.contains(address) {
                    let k = choose|k: int| 0 <= k < earlier.len() && earlier[k] == address;
                    assert(all[k] == address);
                }
                assert(role_in(before, address) == (if earlier.contains(address) {
                    Some(role)
                } else {
                    role_in(start, address)
                }));
            }
            match self.register(addresses[i].as_slice(), role) {
                Ok(()) => {},
                Err(e) => {
                    return Err(e);
                },
            }
            proof {
                assert(later =~= earlier.push(address));
                assert forall|other: Seq<u8>| #[trigger]
                    role_in(self@, other) == (if later.contains(other) {
                        Some(role)
                    } else {
                        role_in(start, other)
                    }) by {
                    assert(role_in(before, other) == (if earlier.contains(other) {
                        Some(role)
                    } else {
                        role_in(start, other)
                    }));
                    if other == address {
                        assert(later[i as int] == other);
                    } else if earlier.contains(other) {
                        let k = choose|k: int| 0 <= k < earlier.len() && earlier[k] == other;
                        assert(later[k] == other);
                    } else if later.contains(other) {
                        let k = choose|k: int| 0 <= k < later.len() && later[k] == other;
                        assert(earlier[k] == other);
                    }
                }
            }
            i = i + 1;
        }
        assert(all.take(addresses@.len() as int) =~= all);
        Ok(())
    }

    /// The registry of a deployment: every address has the role that the
    /// deployment lists it under. A deployment that lists an address under two
    /// roles is refused.
    pub fn from_deployment(deployment: &Deployment) -> (r: Result<Registry, Error>)
        ensures
            r is Ok <==> deployment.consistent(),
            r matches Ok(registry) ==> forall|address: Seq<u8>, role: Role|
                role_in(registry@, address) == Some(role) <==> #[trigger] deployment.lists(
                    role,
                    address,
                ),
            r matches Err(e) ==> e == Error::RoleConflict,
    {
        let mut registry = Registry::new();
        let mut place: u8 = 0;
        while place < 6
            invariant
                place <= 6,
                holds_upto(registry@, deployment, place as int),
            decreases 6 - place,
        {
            let role = role_at(place);
            let list = deployment.list(role);
            let ghost before = registry@;
            let ghost listed = deployment.listed(role);
            let ghost n = place as int;
            match registry.register_all(list, role) {
                Ok(()) => {},
                Err(e) => {
                    proof {
                        let k = choose|k: int|
                            0 <= k < listed.len() && !(role_in(before, #[trigger] listed[k])
                                is None || role_in(before, listed[k]) == Some(role));
                        let address = listed[k];
                        let held = role_in(before, address)->0;
                        assert(deployment.lists(held, address));
                        assert(deployment.lists(role, address));
                        assert(held != role);
                    }
                    return Err(e);
                },
            }
            proof {
                let now = registry@;
                assert forall|address: Seq<u8>, other: Role| #[trigger]
                    deployment.lists(other, address) && rank(other) < n + 1 implies role_in(
                    now,
                    address,
                ) == Some(other) by {
                    lemma_rank_tells(other, role);
                    assert(role_in(now, address) == (if listed.contains(address) {
                        Some(role)
                    } else {
                        role_in(before, address)
                    }));
                    if other != role {
                        assert(role_in(before, address) == Some(other));
                        if listed.contains(address) {
                            let k = choose|k: int| 0 <= k < listed.len() && listed[k] == address;
                            assert(role_in(before, listed[k]) is None || role_in(
                                before,
                                listed[k],
                            ) == Some(role));
                        }
                    }
                }
                assert forall|address: Seq<u8>| (#[trigger] role_in(now, address))
                    is Some implies rank(role_in(now, address)->0) < n + 1 && deployment.lists(
                    role_in(now, address)->0,
                    address,
                ) by {
                    assert(role_in(now, address) == (if listed.contains(address) {
                        Some(role)
                    } else {
                        role_in(before, address)
                    }));
                    if !listed.contains(address) {
                        assert(deployment.lists(role_in(before, address)->0, address));
                    }
                }
            }
            place = place + 1;
        }
        proof {
            assert forall|address: Seq<u8>, first: Role, second: Role|
                #![trigger deployment.lists(first, address), deployment.lists(second, address)]
                deployment.lists(first, address) && deployment.lists(
                    second,
                    address,
                ) implies first == second by {
                lemma_rank_tells(first, second);
            }
            assert forall|address: Seq<u8>, role: Role|
                role_in(registry@, address) == Some(role) <==> #[trigger] deployment.lists(
                    role,
                    address,
                ) by {
                lemma_rank_tells(role, role);
                if role_in(registry@, address) is Some {
                    assert(deployment.lists(role_in(registry@, address)->0, address));
                }
            }
        }
        Ok(registry)
    }
}

} // verus!
