//! The registry of open datastores of one process: which opened instance
//! serves a lookup, and how many operations are under way on each store.
//!
//! The registry decides; opening a store on disk is left to the caller,
//! who is told whether the instance of a lookup is a new one.

use vstd::prelude::*;
use vstd::string::StringExecFns;
use crate::api_types::{
    maintenance_allows, parse_tuning, parse_tuning_spec, DataStoreConfig, MaintenanceType,
    Operation,
};
use crate::datastore::tuning_text;
use crate::error::Error;

verus! {

/// For how many seconds an opened instance serves lookups.
pub const CACHE_SECONDS: i64 = 60;

/// An opened instance of a datastore.
#[derive(Debug)]
pub struct CachedStore {
    pub name: String,
    /// The number of the instance: handles share their state exactly where
    /// they have the same instance.
    pub instance: u64,
    /// The generation of the configuration at which the instance was
    /// opened.
    pub last_generation: usize,
    /// When the instance was opened.
    pub last_update: i64,
}

/// An opened instance, as contracts see it.
pub struct CachedStoreView {
    pub name: Seq<char>,
    pub instance: u64,
    pub last_generation: usize,
    pub last_update: i64,
}

impl View for CachedStore {
    type V = CachedStoreView;

    open spec fn view(&self) -> CachedStoreView {
        CachedStoreView {
            name: self.name@,
            instance: self.instance,
            last_generation: self.last_generation,
            last_update: self.last_update,
        }
    }
}

/// How many operations are under way on a datastore.
#[derive(Debug)]
pub struct ActiveOperations {
    pub name: String,
    pub read: u64,
    pub write: u64,
}

/// The operations under way on a datastore, as contracts see them.
pub struct ActiveOperationsView {
    pub name: Seq<char>,
    pub read: u64,
    pub write: u64,
}

impl View for ActiveOperations {
    type V = ActiveOperationsView;

    open spec fn view(&self) -> ActiveOperationsView {
        ActiveOperationsView { name: self.name@, read: self.read, write: self.write }
    }
}

/// The registry, as contracts see it.
pub struct RegistryView {
    pub stores: Seq<CachedStoreView>,
    pub operations: Seq<ActiveOperationsView>,
    pub next_instance: u64,
}

/// What a lookup hands out: the instance that serves it, and the operation
/// that is counted for it until the handle is released.
#[derive(Debug)]
pub struct DataStoreHandle {
    pub name: String,
    pub instance: u64,
    pub operation: Option<Operation>,
    /// Whether the instance is new: the caller has to open the store.
    pub reopened: bool,
}

/// The place of the opened instance of a store, if there is one.
pub open spec fn store_index(stores: Seq<CachedStoreView>, name: Seq<char>) -> Option<int> {
    if exists|i: int| 0 <= i < stores.len() && stores[i].name == name {
        Some(choose|i: int| 0 <= i < stores.len() && stores[i].name == name)
    } else {
        None
    }
}

/// The place of the counters of a store, if there are any.
pub open spec fn operations_index(ops: Seq<ActiveOperationsView>, name: Seq<char>) -> Option<int> {
    if exists|i: int| 0 <= i < ops.len() && ops[i].name == name {
        Some(choose|i: int| 0 <= i < ops.len() && ops[i].name == name)
    } else {
        None
    }
}

/// How many operations of a kind are under way on a store.
pub open spec fn active_count(ops: Seq<ActiveOperationsView>, name: Seq<char>, operation: Operation) -> int {
    match operations_index(ops, name) {
        None => 0,
        Some(i) => match operation {
            Operation::Read => ops[i].read as int,
            Operation::Write => ops[i].write as int,
        },
    }
}

/// What has to hold of a registry: one instance and one set of counters a
/// store at most, and no instance number that is yet to be handed out.
pub open spec fn registry_wf(reg: RegistryView) -> bool {
    &&& forall|i: int, j: int|
        0 <= i < reg.stores.len() && 0 <= j < reg.stores.len() && i != j ==> reg.stores[i].name
            != reg.stores[j].name
    &&& forall|i: int, j: int|
        0 <= i < reg.operations.len() && 0 <= j < reg.operations.len() && i != j
            ==> reg.operations[i].name != reg.operations[j].name
    &&& forall|i: int| 0 <= i < reg.stores.len() ==> (#[trigger] reg.stores[i]).instance
        < reg.next_instance
}

/// Whether an opened instance serves a lookup: it was opened at the same
/// generation of the configuration, less than sixty seconds ago.
pub open spec fn is_fresh(entry: CachedStoreView, generation: usize, now: i64) -> bool {
    entry.last_generation == generation && now < entry.last_update + CACHE_SECONDS
}

/// Whether the store's cached instance serves a lookup.
pub open spec fn serves(reg: RegistryView, name: Seq<char>, generation: usize, now: i64) -> bool {
    store_index(reg.stores, name) matches Some(i) && is_fresh(reg.stores[i], generation, now)
}

/// The counters after one more operation has begun.
pub open spec fn bumped(ops: Seq<ActiveOperationsView>, name: Seq<char>, operation: Option<Operation>) -> Seq<
    ActiveOperationsView,
> {
    match operation {
        None => ops,
        Some(op) => match operations_index(ops, name) {
            None => ops.push(
                ActiveOperationsView {
                    name,
                    read: if op == Operation::Read {
                        1
                    } else {
                        0
                    },
                    write: if op == Operation::Write {
                        1
                    } else {
                        0
                    },
                },
            ),
            Some(i) => ops.update(
                i,
                match op {
                    Operation::Read => ActiveOperationsView {
                        read: (ops[i].read + 1) as u64,
                        ..ops[i]
                    },
                    Operation::Write => ActiveOperationsView {
                        write: (ops[i].write + 1) as u64,
                        ..ops[i]
                    },
                },
            ),
        },
    }
}

/// Whether one more operation can be counted.
pub open spec fn can_bump(ops: Seq<ActiveOperationsView>, name: Seq<char>, operation: Option<Operation>) -> bool {
    match operation {
        None => true,
        Some(op) => active_count(ops, name, op) < u64::MAX,
    }
}

/// The counters after an operation has ended.
pub open spec fn released(ops: Seq<ActiveOperationsView>, name: Seq<char>, operation: Option<Operation>) -> Seq<
    ActiveOperationsView,
> {
    match operation {
        None => ops,
        Some(op) => match operations_index(ops, name) {
            None => ops,
            Some(i) => ops.update(
                i,
                match op {
                    Operation::Read => ActiveOperationsView {
                        read: if ops[i].read > 0 {
                            (ops[i].read - 1) as u64
                        } else {
                            0
                        },
                        ..ops[i]
                    },
                    Operation::Write => ActiveOperationsView {
                        write: if ops[i].write > 0 {
                            (ops[i].write - 1) as u64
                        } else {
                            0
                        },
                        ..ops[i]
                    },
                },
            ),
        },
    }
}

/// Whether a lookup fails, and with what. A store that is not configured
/// is missing; a maintenance mode may forbid the operation; the tuning
/// options have to be readable; the counter of the operation and, for a
/// new instance, the instance numbers must not be used up.
pub open spec fn lookup_failure(
    reg: RegistryView,
    name: Seq<char>,
    config: Option<DataStoreConfig>,
    generation: usize,
    now: i64,
    operation: Option<Operation>,
) -> Option<Error> {
    match config {
        None => Some(Error::ConfigMissing),
        Some(c) => if c.maintenance_mode matches Some(mode) && !maintenance_allows(
            mode,
            operation,
        ) {
            Some(Error::MaintenanceMode)
        } else if !can_bump(reg.operations, name, operation) {
            Some(Error::IoError)
        } else if serves(reg, name, generation, now) {
            None
        } else if parse_tuning_spec(tuning_text(c)) is None {
            Some(Error::InvalidInput)
        } else if reg.next_instance == u64::MAX {
            Some(Error::IoError)
        } else {
            None
        },
    }
}

/// The instance that serves a lookup that does not fail: the cached one
/// where it is fresh, a new one otherwise.
pub open spec fn lookup_instance(reg: RegistryView, name: Seq<char>, generation: usize, now: i64) -> u64 {
    if serves(reg, name, generation, now) {
        reg.stores[store_index(reg.stores, name)->0].instance
    } else {
        reg.next_instance
    }
}

/// What a lookup leaves of the registry. The operation is counted as soon
/// as the configuration lets it begin, also where the lookup then fails to
/// open the store.
pub open spec fn lookup_state(
    reg: RegistryView,
    name: Seq<char>,
    config: Option<DataStoreConfig>,
    generation: usize,
    now: i64,
    operation: Option<Operation>,
) -> RegistryView {
    match lookup_failure(reg, name, config, generation, now, operation) {
        Some(Error::ConfigMissing) => reg,
        Some(Error::MaintenanceMode) => reg,
        Some(e) => if can_bump(reg.operations, name, operation) {
            RegistryView { operations: bumped(reg.operations, name, operation), ..reg }
        } else {
            reg
        },
        None => {
            let operations = bumped(reg.operations, name, operation);
            if serves(reg, name, generation, now) {
                RegistryView { operations, ..reg }
            } else {
                let entry = CachedStoreView {
                    name,
                    instance: reg.next_instance,
                    last_generation: generation,
                    last_update: now,
                };
                RegistryView {
                    stores: match store_index(reg.stores, name) {
                        Some(i) => reg.stores.update(i, entry),
                        None => reg.stores.push(entry),
                    },
                    operations,
                    next_instance: (reg.next_instance + 1) as u64,
                }
            }
        },
    }
}

/// In a registry, a store's name tells the place of its instance.
pub proof fn lemma_store_index(reg: RegistryView, i: int)
    requires
        registry_wf(reg),
        0 <= i < reg.stores.len(),
    ensures
        store_index(reg.stores, reg.stores[i].name) == Some(i),
{
}

/// In a registry, a store's name tells the place of its counters.
pub proof fn lemma_operations_index(reg: RegistryView, i: int)
    requires
        registry_wf(reg),
        0 <= i < reg.operations.len(),
    ensures
        operations_index(reg.operations, reg.operations[i].name) == Some(i),
{
}

/// What a lookup that does not fail does: the registry stays well-formed
/// and holds the instance that served the lookup, opened at the generation
/// of the lookup.
pub proof fn lemma_lookup(
    reg: RegistryView,
    name: Seq<char>,
    config: Option<DataStoreConfig>,
    generation: usize,
    now: i64,
    operation: Option<Operation>,
)
    requires
        registry_wf(reg),
        lookup_failure(reg, name, config, generation, now, operation) is None,
    ensures
        registry_wf(lookup_state(reg, name, config, generation, now, operation)),
        ({
            let after = lookup_state(reg, name, config, generation, now, operation);
            let at = store_index(after.stores, name);
            &&& at is Some
            &&& after.stores[at->0].instance == lookup_instance(reg, name, generation, now)
            &&& after.stores[at->0].last_generation == generation
            &&& after.stores[at->0].last_update == if serves(reg, name, generation, now) {
                reg.stores[store_index(reg.stores, name)->0].last_update
            } else {
                now
            }
            &&& lookup_instance(reg, name, generation, now) < after.next_instance
        }),
{
    let after = lookup_state(reg, name, config, generation, now, operation);
    lemma_bumped(reg.operations, name, operation);
    if !serves(reg, name, generation, now) {
        match store_index(reg.stores, name) {
            Some(i) => {
                assert forall|a: int, b: int|
                    0 <= a < after.stores.len() && 0 <= b < after.stores.len() && a
                    != b implies after.stores[a].name != after.stores[b].name by {
                    assert(after.stores[a].name == reg.stores[a].name);
                    assert(after.stores[b].name == reg.stores[b].name);
                }
                assert forall|k: int| 0 <= k < after.stores.len() implies (
                #[trigger] after.stores[k]).instance < after.next_instance by {
                    if k != i {
                        assert(after.stores[k] == reg.stores[k]);
                    }
                }
                assert(after.stores[i].name == name);
            },
            None => {
                let k = reg.stores.len() as int;
                assert forall|a: int, b: int|
                    0 <= a < after.stores.len() && 0 <= b < after.stores.len() && a
                    != b implies after.stores[a].name != after.stores[b].name by {
                    if a < k {
                        assert(after.stores[a] == reg.stores[a]);
                    }
                    if b < k {
                        assert(after.stores[b] == reg.stores[b]);
                    }
                }
                assert forall|j: int| 0 <= j < after.stores.len() implies (
                #[trigger] after.stores[j]).instance < after.next_instance by {
                    if j < k {
                        assert(after.stores[j] == reg.stores[j]);
                    }
                }
                assert(after.stores[k].name == name);
            },
        }
    }
}

/// Counting one more operation keeps at most one set of counters a store.
pub proof fn lemma_bumped(ops: Seq<ActiveOperationsView>, name: Seq<char>, operation: Option<Operation>)
    requires
        forall|i: int, j: int|
            0 <= i < ops.len() && 0 <= j < ops.len() && i != j ==> ops[i].name != ops[j].name,
    ensures
        forall|i: int, j: int|
            0 <= i < bumped(ops, name, operation).len() && 0 <= j < bumped(
                ops,
                name,
                operation,
            ).len() && i != j ==> bumped(ops, name, operation)[i].name != bumped(
                ops,
                name,
                operation,
            )[j].name,
{
    let after = bumped(ops, name, operation);
    if operation is Some {
        match operations_index(ops, name) {
            Some(i) => {
                assert forall|a: int, b: int|
                    0 <= a < after.len() && 0 <= b < after.len() && a != b implies after[a].name
                    != after[b].name by {
                    assert(after[a].name == ops[a].name);
                    assert(after[b].name == ops[b].name);
                }
            },
            None => {
                let k = ops.len() as int;
                assert forall|a: int, b: int|
                    0 <= a < after.len() && 0 <= b < after.len() && a != b implies after[a].name
                    != after[b].name by {
                    if a < k {
                        assert(after[a] == ops[a]);
                    }
                    if b < k {
                        assert(after[b] == ops[b]);
                    }
                }
            },
        }
    }
}

/// Cache consistency. After a lookup, a second lookup of the same store at
/// the same generation, less than sixty seconds after the instance of the
/// first was opened, is served by the same instance: the two handles share
/// their state. A second lookup at another generation is served by a new
/// instance.
pub proof fn law_cache_consistency(
    reg: RegistryView,
    name: Seq<char>,
    config: Option<DataStoreConfig>,
    generation: usize,
    now: i64,
    operation: Option<Operation>,
    config2: Option<DataStoreConfig>,
    generation2: usize,
    now2: i64,
    operation2: Option<Operation>,
)
    requires
        registry_wf(reg),
        lookup_failure(reg, name, config, generation, now, operation) is None,
        lookup_failure(
            lookup_state(reg, name, config, generation, now, operation),
            name,
            config2,
            generation2,
            now2,
            operation2,
        ) is None,
    ensures
        ({
            let after = lookup_state(reg, name, config, generation, now, operation);
            let first = lookup_instance(reg, name, generation, now);
            let second = lookup_instance(after, name, generation2, now2);
            let opened = after.stores[store_index(after.stores, name)->0].last_update;
            &&& generation2 == generation && now2 < opened + CACHE_SECONDS ==> second == first
            &&& generation2 != generation ==> second != first
        }),
{
    lemma_lookup(reg, name, config, generation, now, operation);
}

/// The registry of the open datastores of a process.
pub struct DatastoreRegistry {
    stores: Vec<CachedStore>,
    operations: Vec<ActiveOperations>,
    next_instance: u64,
}

impl View for DatastoreRegistry {
    type V = RegistryView;

    closed spec fn view(&self) -> RegistryView {
        RegistryView {
            stores: Seq::new(self.stores@.len(), |i: int| self.stores@[i]@),
            operations: Seq::new(self.operations@.len(), |i: int| self.operations@[i]@),
            next_instance: self.next_instance,
        }
    }
}

impl DatastoreRegistry {
    /// What holds of every registry.
    pub open spec fn wf(&self) -> bool {
        registry_wf(self@)
    }

    /// A registry without open stores.
    pub fn new() -> (reg: DatastoreRegistry)
        ensures
            reg.wf(),
            reg@.stores.len() == 0,
            reg@.operations.len() == 0,
            reg@.next_instance == 0,
    {
        DatastoreRegistry { stores: Vec::new(), operations: Vec::new(), next_instance: 0 }
    }

    fn find_store(&self, name: &String) -> (r: Option<usize>)
        requires
            self.wf(),
        ensures
            r is Some <==> store_index(self@.stores, name@) is Some,
            r matches Some(i) ==> store_index(self@.stores, name@) == Some(i as int) && i
                < self.stores.len() && self.stores@[i as int]@ == self@.stores[i as int],
    {
        let mut i: usize = 0;
        while i < self.stores.len()
            invariant
                i <= self.stores.len(),
                self.wf(),
                forall|k: int| 0 <= k < i ==> self@.stores[k].name != name@,
            decreases self.stores.len() - i,
        {
            if self.stores[i].name == *name {
                proof {
                    assert(self@.stores[i as int].name == name@);
                    lemma_store_index(self@, i as int);
                }
                return Some(i);
            }
            i += 1;
        }
        None
    }

    fn find_operations(&self, name: &String) -> (r: Option<usize>)
        requires
            self.wf(),
        ensures
            r is Some <==> operations_index(self@.operations, name@) is Some,
            r matches Some(i) ==> operations_index(self@.operations, name@) == Some(i as int) && i
                < self.operations.len() && self.operations@[i as int]@
                == self@.operations[i as int],
    {
        let mut i: usize = 0;
        while i < self.operations.len()
            invariant
                i <= self.operations.len(),
                self.wf(),
                forall|k: int| 0 <= k < i ==> self@.operations[k].name != name@,
            decreases self.operations.len() - i,
        {
            if self.operations[i].name == *name {
                proof {
                    assert(self@.operations[i as int].name == name@);
                    lemma_operations_index(self@, i as int);
                }
                return Some(i);
            }
            i += 1;
        }
        None
    }

    /// How many operations of a kind are under way on a store.
    pub fn active_operations(&self, name: &str, operation: Operation) -> (n: u64)
        requires
            self.wf(),
        ensures
            n == active_count(self@.operations, name@, operation),
    {
        let key = String::from_str(name);
        match self.find_operations(&key) {
            None => 0,
            Some(i) => match operation {
                Operation::Read => self.operations[i].read,
                Operation::Write => self.operations[i].write,
            },
        }
    }

    /// Counts one more operation on a store. The answer is whether it
    /// could be counted; if not, nothing has changed.
    pub fn update_active_operations(&mut self, name: &str, operation: Option<Operation>) -> (r: bool)
        requires
            old(self).wf(),
        ensures
            final(self).wf(),
            r == can_bump(old(self)@.operations, name@, operation),
            final(self)@ == if r {
                RegistryView { operations: bumped(old(self)@.operations, name@, operation), ..old(self)@ }
            } else {
                old(self)@
            },
    {
        let op = match operation {
            None => {
                return true;
            },
            Some(op) => op,
        };
        let ghost before = self@;
        proof {
            lemma_bumped(before.operations, name@, operation);
        }
        let key = String::from_str(name);
        match self.find_operations(&key) {
            None => {
                let entry = match op {
                    Operation::Read => ActiveOperations { name: key, read: 1, write: 0 },
                    Operation::Write => ActiveOperations { name: key, read: 0, write: 1 },
                };
                let ghost ev = entry@;
                self.operations.push(entry);
                proof {
                    assert(self@.operations =~= before.operations.push(ev));
                    assert(self@.stores =~= before.stores);
                }
                true
            },
            Some(i) => {
                let full = match op {
                    Operation::Read => self.operations[i].read == u64::MAX,
                    Operation::Write => self.operations[i].write == u64::MAX,
                };
                if full {
                    return false;
                }
                let mut entry = self.operations.remove(i);
                match op {
                    Operation::Read => {
                        entry.read = entry.read + 1;
                    },
                    Operation::Write => {
                        entry.write = entry.write + 1;
                    },
                }
                let ghost ev = entry@;
                self.operations.insert(i, entry);
                proof {
                    assert(self@.operations =~= before.operations.update(i as int, ev));
                    assert(self@.stores =~= before.stores);
                }
                true
            },
        }
    }

    /// Ends an operation that a handle was counted for.
    pub fn release(&mut self, handle: DataStoreHandle)
        requires
            old(self).wf(),
        ensures
            final(self).wf(),
            final(self)@ == (RegistryView {
                operations: released(old(self)@.operations, handle.name@, handle.operation),
                ..old(self)@
            }),
    {
        let op = match handle.operation {
            None => {
                assert(self@.operations =~= old(self)@.operations);
                return ;
            },
            Some(op) => op,
        };
        let ghost before = self@;
        match self.find_operations(&handle.name) {
            None => {},
            Some(i) => {
                let mut entry = self.operations.remove(i);
                match op {
                    Operation::Read => {
                        if entry.read > 0 {
                            entry.read = entry.read - 1;
                        }
                    },
                    Operation::Write => {
                        if entry.write > 0 {
                            entry.write = entry.write - 1;
                        }
                    },
                }
                let ghost ev = entry@;
                self.operations.insert(i, entry);
                proof {
                    let after = self@.operations;
                    assert(after =~= before.operations.update(i as int, ev));
                    assert(self@.stores =~= before.stores);
                    assert forall|a: int, b: int|
                        0 <= a < after.len() && 0 <= b < after.len() && a != b implies after[a].name
                        != after[b].name by {
                        assert(after[a].name == before.operations[a].name);
                        assert(after[b].name == before.operations[b].name);
                    }
                }
            },
        }
    }

    /// Copies a handle: the operation of the handle is counted once more.
    /// Where it cannot be counted, the copy stands for no operation.
    pub fn clone_handle(&mut self, handle: &DataStoreHandle) -> (copy: DataStoreHandle)
        requires
            old(self).wf(),
        ensures
            final(self).wf(),
            copy.name@ == handle.name@,
            copy.instance == handle.instance,
            copy.operation == if can_bump(old(self)@.operations, handle.name@, handle.operation) {
                handle.operation
            } else {
                None
            },
            final(self)@ == if can_bump(old(self)@.operations, handle.name@, handle.operation) {
                RegistryView {
                    operations: bumped(old(self)@.operations, handle.name@, handle.operation),
                    ..old(self)@
                }
            } else {
                old(self)@
            },
    {
        let counted = self.update_active_operations(handle.name.as_str(), handle.operation);
        DataStoreHandle {
            name: handle.name.clone(),
            instance: handle.instance,
            operation: if counted {
                handle.operation
            } else {
                None
            },
            reopened: false,
        }
    }

    /// Looks a datastore up for an operation, at time `now` and at the
    /// given generation of the configuration. `config` is what the
    /// configuration holds for the store, if it holds anything.
    ///
    /// A cached instance serves the lookup if it was opened at this
    /// generation less than sixty seconds ago; otherwise a new instance is
    /// registered, and the handle says that the store has to be opened.
    pub fn lookup_datastore(
        &mut self,
        name: &str,
        config: Option<&DataStoreConfig>,
        generation: usize,
        now: i64,
        operation: Option<Operation>,
    ) -> (r: Result<DataStoreHandle, Error>)
        requires
            old(self).wf(),
        ensures
            final(self).wf(),
            ({
                let cfg = match config {
                    Some(c) => Some(*c),
                    None => None,
                };
                &&& final(self)@ == lookup_state(old(self)@, name@, cfg, generation, now, operation)
                &&& match lookup_failure(old(self)@, name@, cfg, generation, now, operation) {
                    Some(e) => r matches Err(x) && x == e,
                    None => r matches Ok(handle) && handle.name@ == name@ && handle.instance
                        == lookup_instance(old(self)@, name@, generation, now) && handle.operation
                        == operation && handle.reopened == !serves(
                        old(self)@,
                        name@,
                        generation,
                        now,
                    ),
                }
            }),
    {
        let ghost before = self@;
        let ghost cfg = match config {
            Some(c) => Some(*c),
            None => None,
        };
        let config = match config {
            None => {
                return Err(Error::ConfigMissing);
            },
            Some(c) => c,
        };
        if let Some(mode) = config.maintenance_mode {
            if mode.check(operation).is_err() {
                return Err(Error::MaintenanceMode);
            }
        }
        if !self.update_active_operations(name, operation) {
            return Err(Error::IoError);
        }
        let ghost counted = self@;
        let key = String::from_str(name);
        let found = self.find_store(&key);
        if let Some(i) = found {
            let entry = &self.stores[i];
            if entry.last_generation == generation && (now as i128) < (entry.last_update as i128)
                + (CACHE_SECONDS as i128) {
                return Ok(
                    DataStoreHandle { name: key, instance: entry.instance, operation, reopened: false },
                );
            }
        }
        let tuning_ok: bool = match &config.tuning {
            Some(t) => parse_tuning(t.as_str()).is_ok(),
            None => parse_tuning(String::new().as_str()).is_ok(),
        };
        if !tuning_ok {
            return Err(Error::InvalidInput);
        }
        if self.next_instance == u64::MAX {
            return Err(Error::IoError);
        }
        proof {
            lemma_lookup(before, name@, cfg, generation, now, operation);
        }
        let instance: u64 = self.next_instance;
        let entry = CachedStore {
            name: key.clone(),
            instance,
            last_generation: generation,
            last_update: now,
        };
        let ghost ev = entry@;
        match found {
            Some(i) => {
                self.stores.remove(i);
                self.stores.insert(i, entry);
                proof {
                    assert(self@.stores =~= counted.stores.update(i as int, ev));
                }
            },
            None => {
                self.stores.push(entry);
                proof {
                    assert(self@.stores =~= counted.stores.push(ev));
                }
            },
        }
        self.next_instance = instance + 1;
        proof {
            assert(self@.operations =~= counted.operations);
        }
        Ok(DataStoreHandle { name: key, instance, operation, reopened: true })
    }

    /// Forgets the instances of the stores that are not configured any
    /// more: `configured` holds the names of the stores that are.
    pub fn remove_unused_datastores(&mut self, configured: &Vec<String>)
        requires
            old(self).wf(),
        ensures
            final(self).wf(),
            final(self)@.operations == old(self)@.operations,
            final(self)@.next_instance == old(self)@.next_instance,
            forall|k: int|
                0 <= k < final(self)@.stores.len() ==> old(self)@.stores.contains(
                    #[trigger] final(self)@.stores[k],
                ) && name_listed(configured@, final(self)@.stores[k].name),
            forall|i: int|
                0 <= i < old(self)@.stores.len() && name_listed(
                    configured@,
                    (#[trigger] old(self)@.stores[i]).name,
                ) ==> final(self)@.stores.contains(old(self)@.stores[i]),
    {
        let ghost before = self@;
        let mut i: usize = 0;
        while i < self.stores.len()
            invariant
                i <= self.stores.len(),
                self.wf(),
                before == old(self)@,
                self@.operations == before.operations,
                self@.next_instance == before.next_instance,
                forall|k: int|
                    0 <= k < self@.stores.len() ==> before.stores.contains(
                        #[trigger] self@.stores[k],
                    ),
                forall|k: int|
                    0 <= k < i ==> name_listed(configured@, (#[trigger] self@.stores[k]).name),
                forall|j: int|
                    0 <= j < before.stores.len() && name_listed(
                        configured@,
                        (#[trigger] before.stores[j]).name,
                    ) ==> self@.stores.contains(before.stores[j]),
            decreases self.stores.len() - i,
        {
            let ghost cur = self@;
            assert(cur.stores[i as int] == self.stores@[i as int]@);
            if is_listed(configured, &self.stores[i].name) {
                i += 1;
            } else {
                self.stores.remove(i);
                proof {
                    let after = self@;
                    assert(after.stores =~= cur.stores.remove(i as int));
                    assert(after.operations =~= cur.operations);
                    assert forall|k: int| 0 <= k < after.stores.len() implies before.stores.contains(
                        #[trigger] after.stores[k],
                    ) by {
                        let ok = if k < i { k } else { k + 1 };
                        assert(after.stores[k] == cur.stores[ok]);
                    }
                    assert forall|k: int| 0 <= k < i implies name_listed(
                        configured@,
                        (#[trigger] after.stores[k]).name,
                    ) by {
                        assert(after.stores[k] == cur.stores[k]);
                    }
                    assert forall|j: int|
                        0 <= j < before.stores.len() && name_listed(
                            configured@,
                            (#[trigger] before.stores[j]).name,
                        ) implies after.stores.contains(before.stores[j]) by {
                        let w = choose|w: int|
                            0 <= w < cur.stores.len() && cur.stores[w] == before.stores[j];
                        assert(w != i);
                        let nw = if w < i { w } else { w - 1 };
                        assert(after.stores[nw] == before.stores[j]);
                    }
                    assert forall|a: int, b: int|
                        0 <= a < after.stores.len() && 0 <= b < after.stores.len() && a
                        != b implies after.stores[a].name != after.stores[b].name by {
                        let oa = if a < i { a } else { a + 1 };
                        let ob = if b < i { b } else { b + 1 };
                        assert(after.stores[a] == cur.stores[oa]);
                        assert(after.stores[b] == cur.stores[ob]);
                    }
                    assert forall|k: int| 0 <= k < after.stores.len() implies (
                    #[trigger] after.stores[k]).instance < after.next_instance by {
                        let ok = if k < i { k } else { k + 1 };
                        assert(after.stores[k] == cur.stores[ok]);
                    }
                }
            }
        }
    }
}

/// Whether a name is among the names of the configured stores.
pub open spec fn name_listed(configured: Seq<String>, name: Seq<char>) -> bool {
    exists|i: int| 0 <= i < configured.len() && (#[trigger] configured[i])@ == name
}

/// Whether a name is among the names of the configured stores.
pub fn is_listed(configured: &Vec<String>, name: &String) -> (r: bool)
    ensures
        r == name_listed(configured@, name@),
{
    let mut i: usize = 0;
    while i < configured.len()
        invariant
            i <= configured.len(),
            forall|k: int| 0 <= k < i ==> (#[trigger] configured@[k])@ != name@,
        decreases configured.len() - i,
    {
        if configured[i] == *name {
            return true;
        }
        i += 1;
    }
    false
}

} // verus!
