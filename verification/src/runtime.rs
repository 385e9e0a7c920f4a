//! The runtime coordinator: the module table and the run lifecycle.
//!
//! The coordinator owns the name-to-id table and one instance slot per
//! loaded module. A slot cycles Idle, then Running while its guest entry
//! point executes, then Idle again; moving to Running hands the backend
//! handle to the active call and moving back returns it. The execution
//! context is installed before the entry point and torn down on every
//! exit path, so it is always empty between runs.
//!
//! The sandbox backend itself is outside this crate: it is reached
//! through the platform traits, which a backend implements once per
//! target execution engine.

use vstd::prelude::*;

use crate::codec::str_eq;
use crate::context::Context;
use crate::log::LogLine;
use crate::registry::{create_type_registry, TypeRegistry};
use crate::store::Store;

verus! {

/// The failures this bridge distinguishes.
///
/// `ProtocolError` covers undecodable payloads; it is recovered locally
/// (logged, the action becomes a no-op). `ModuleNotFound` and
/// `DuplicateModuleName` surface to the coordinator's caller.
/// `QueryResolutionError` names a selected component unknown to the
/// store; the query fails cleanly without touching the host process.
#[derive(Debug)]
pub enum WabiError {
    ProtocolError,
    ModuleNotFound(String),
    DuplicateModuleName(String),
    QueryResolutionError(String),
}

impl WabiError {
    /// A human-readable description of the error.
    pub fn message(&self) -> (r: String)
        ensures
            match self {
                WabiError::ProtocolError => r@ == "Failed to decode action payload"@,
                WabiError::ModuleNotFound(name) => r@ == "Module not found: "@ + name@,
                WabiError::DuplicateModuleName(name) => r@ == "Duplicate module name: "@ + name@,
                WabiError::QueryResolutionError(name) => r@ == "Unknown component name: "@ + name@,
            },
    {
        match self {
            WabiError::ProtocolError => String::from_str("Failed to decode action payload"),
            WabiError::ModuleNotFound(name) => String::from_str("Module not found: ").concat(
                name.as_str(),
            ),
            WabiError::DuplicateModuleName(name) => String::from_str(
                "Duplicate module name: ",
            ).concat(name.as_str()),
            WabiError::QueryResolutionError(name) => String::from_str(
                "Unknown component name: ",
            ).concat(name.as_str()),
        }
    }
}

/// The lifecycle state of one backend instance slot.
///
/// Exactly one Running value may exist per slot at a time: moving from
/// Idle to Running moves ownership of the handle into the active call,
/// and moving back returns it.
pub enum InstanceState<T> {
    Unloaded,
    Idle(T),
    Running,
}

impl<T> InstanceState<T> {
    /// Whether the slot's instance is currently running.
    pub fn is_running(&self) -> (r: bool)
        ensures
            r == (self is Running),
    {
        match self {
            InstanceState::Running => true,
            _ => false,
        }
    }

    /// Whether the slot holds an idle instance.
    pub fn is_idle(&self) -> (r: bool)
        ensures
            r == (self is Idle),
    {
        match self {
            InstanceState::Idle(_) => true,
            _ => false,
        }
    }

    /// Whether the slot holds no instance at all.
    pub fn is_none(&self) -> (r: bool)
        ensures
            r == (self is Unloaded),
    {
        match self {
            InstanceState::Unloaded => true,
            _ => false,
        }
    }

    /// Moves the idle handle out of the slot.
    pub fn take(self) -> (r: T)
        requires
            self is Idle,
        ensures
            self == InstanceState::Idle(r),
    {
        match self {
            InstanceState::Idle(t) => t,
            _ => vstd::pervasive::unreached(),
        }
    }
}

/// One loaded guest instance, as the backend exposes it: it can
/// re-initialize the guest and capture its scratch buffer, and it can
/// invoke the guest entry point, handing the host's context, registry
/// and store through so the import callback can dispatch actions.
pub trait InstancePlatform: Sized {
    /// The module id this instance was loaded under.
    spec fn spec_id(&self) -> u32;

    /// The module id this instance was loaded under.
    fn id(&self) -> (r: u32)
        ensures
            r == self.spec_id(),
    ;

    /// Invokes the guest's allocation export: (re)initializes guest
    /// state for this run and captures where the shared buffer now
    /// lives.
    fn run_alloc(&mut self)
        ensures
            final(self).spec_id() == old(self).spec_id(),
    ;

    /// Invokes the guest's entry point. The guest may call back into the
    /// host import any number of times; the host log lines produced are
    /// returned. Nothing else is assumed of the guest, which is
    /// untrusted.
    fn run_main(&mut self, ctx: &Context, registry: &TypeRegistry, store: &Store) -> (lines: Vec<
        LogLine,
    >)
        requires
            ctx.active_module() == Some(old(self).spec_id()),
            store.wf(),
            registry.spec_contains("QueryFetch"@),
        ensures
            final(self).spec_id() == old(self).spec_id(),
    ;
}

/// A sandbox execution backend, implemented once per target engine.
pub trait RuntimePlatform: Sized {
    type Instance: InstancePlatform;

    /// Instantiates a guest binary under the given module id.
    fn load_module(&mut self, id: u32, bytes: &Vec<u8>) -> (r: Self::Instance)
        ensures
            r.spec_id() == id,
    ;
}

/// The runtime coordinator.
pub struct WabiRuntime<P: RuntimePlatform> {
    inner: P,
    context: Context,
    type_registry: TypeRegistry,
    instances: Vec<InstanceState<P::Instance>>,
    instances_name_map: Vec<(String, u32)>,
    last_id: u32,
    log: Vec<LogLine>,
}

impl<P: RuntimePlatform> WabiRuntime<P> {
    /// The name-to-id table, in insertion order.
    pub closed spec fn spec_names(&self) -> Seq<(Seq<char>, u32)> {
        self.instances_name_map@.map_values(|p: (String, u32)| (p.0@, p.1))
    }

    /// The instance slots; slot `i` belongs to module id `i + 1`.
    pub closed spec fn spec_instances(&self) -> Seq<InstanceState<P::Instance>> {
        self.instances@
    }

    /// The host log lines accumulated so far.
    pub closed spec fn spec_log(&self) -> Seq<LogLine> {
        self.log@
    }

    /// The highest module id assigned so far.
    pub closed spec fn spec_last_id(&self) -> u32 {
        self.last_id
    }

    /// Whether a module of the given name is loaded.
    pub open spec fn has_module(&self, name: Seq<char>) -> bool {
        exists|k: int| 0 <= k < self.spec_names().len() && (#[trigger] self.spec_names()[k]).0 == name
    }

    /// The coordinator's invariant: the context is empty between runs,
    /// the registry holds the bridge's wire types, every assigned module
    /// id has exactly one idle slot holding an instance loaded under it,
    /// and names and ids are unique.
    pub closed spec fn wf(&self) -> bool {
        &&& self.context.spec_is_empty()
        &&& self.type_registry.spec_contains("QueryFetch"@)
        &&& self.instances@.len() == self.last_id
        &&& self.instances_name_map@.len() == self.last_id
        &&& forall|k: int|
            0 <= k < self.instances_name_map@.len() ==> 1 <= (
            #[trigger] self.instances_name_map@[k]).1 <= self.last_id
        &&& forall|k1: int, k2: int|
            0 <= k1 < k2 < self.instances_name_map@.len()
                ==> (#[trigger] self.instances_name_map@[k1]).0@
                != (#[trigger] self.instances_name_map@[k2]).0@
        &&& forall|k1: int, k2: int|
            0 <= k1 < k2 < self.instances_name_map@.len()
                ==> (#[trigger] self.instances_name_map@[k1]).1
                != (#[trigger] self.instances_name_map@[k2]).1
        &&& forall|i: int|
            0 <= i < self.instances@.len() ==> (#[trigger] self.instances@[i]) is Idle
        &&& forall|i: int|
            0 <= i < self.instances@.len() ==> ((#[trigger] self.instances@[i]) matches
            InstanceState::Idle(h) ==> h.spec_id() == i + 1)
    }

    /// A fresh coordinator over the given backend, with the standard
    /// type registry and no modules.
    pub fn new(inner: P) -> (r: WabiRuntime<P>)
        ensures
            r.wf(),
            r.spec_names().len() == 0,
            r.spec_instances().len() == 0,
            r.spec_log().len() == 0,
            r.spec_last_id() == 0,
    {
        WabiRuntime {
            inner,
            context: Context::new(),
            type_registry: create_type_registry(),
            instances: Vec::new(),
            instances_name_map: Vec::new(),
            last_id: 0,
            log: Vec::new(),
        }
    }

    /// The highest module id assigned so far.
    pub fn last_module_id(&self) -> (r: u32)
        ensures
            r == self.spec_last_id(),
    {
        self.last_id
    }

    /// The id a module name resolves to; unknown names fail with
    /// `ModuleNotFound`.
    pub fn get_module_id(&self, name: &str) -> (r: Result<u32, WabiError>)
        ensures
            (r is Ok) == self.has_module(name@),
            r matches Ok(id) ==> exists|k: int|
                0 <= k < self.spec_names().len() && #[trigger] self.spec_names()[k] == (name@, id),
            r matches Err(e) ==> (e matches WabiError::ModuleNotFound(n) && n@ == name@),
    {
        let mut k: usize = 0;
        while k < self.instances_name_map.len()
            invariant
                k <= self.instances_name_map@.len(),
                forall|t: int|
                    0 <= t < k ==> (#[trigger] self.instances_name_map@[t]).0@ != name@,
            decreases self.instances_name_map@.len() - k,
        {
            if str_eq(self.instances_name_map[k].0.as_str(), name) {
                proof {
                    assert(self.spec_names()[k as int] == (name@, self.instances_name_map@[k as int].1));
                }
                return Ok(self.instances_name_map[k].1);
            }
            k = k + 1;
        }
        proof {
            assert forall|t: int|
                0 <= t < self.spec_names().len() implies (#[trigger] self.spec_names()[t]).0
                != name@ by {
                assert(self.instances_name_map@[t].0@ != name@);
            }
        }
        Err(WabiError::ModuleNotFound(name.to_owned()))
    }

    /// Loads a guest binary under a new module id.
    ///
    /// Fails with `DuplicateModuleName` when the name is taken, leaving
    /// every module's state unchanged; otherwise allocates the next id,
    /// asks the backend to instantiate the guest, and records the idle
    /// instance without touching any other slot.
    pub fn load_module(&mut self, name: &str, bytes: &Vec<u8>) -> (r: Result<u32, WabiError>)
        requires
            old(self).wf(),
            old(self).spec_last_id() < u32::MAX,
        ensures
            final(self).wf(),
            (r is Ok) == !old(self).has_module(name@),
            r matches Err(e) ==> {
                &&& (e matches WabiError::DuplicateModuleName(n) && n@ == name@)
                &&& *final(self) == *old(self)
            },
            r matches Ok(id) ==> {
                &&& id == old(self).spec_last_id() + 1
                &&& final(self).spec_last_id() == id
                &&& final(self).spec_names() == old(self).spec_names().push((name@, id))
                &&& final(self).spec_instances().len() == old(self).spec_instances().len() + 1
                &&& forall|i: int|
                    0 <= i < old(self).spec_instances().len() ==> final(self).spec_instances()[i]
                        == old(self).spec_instances()[i]
                &&& final(self).spec_log() == old(self).spec_log()
            },
    {
        match self.get_module_id(name) {
            Ok(_) => Err(WabiError::DuplicateModuleName(name.to_owned())),
            Err(_) => {
                let id = self.last_id + 1;
                let instance = self.inner.load_module(id, bytes);
                self.last_id = id;
                self.instances.push(InstanceState::Idle(instance));
                self.instances_name_map.push((name.to_owned(), id));
                proof {
                    let pre = old(self).spec_names();
                    assert(self.spec_names() =~= pre.push((name@, id)));
                    assert forall|k1: int, k2: int|
                        0 <= k1 < k2 < self.instances_name_map@.len() implies (
                    #[trigger] self.instances_name_map@[k1]).0@
                        != (#[trigger] self.instances_name_map@[k2]).0@ by {
                        if k2 == self.instances_name_map@.len() - 1 {
                            assert(old(self).spec_names()[k1].0
                                == old(self).instances_name_map@[k1].0@);
                            assert(!old(self).has_module(name@));
                        }
                    }
                }
                Ok(id)
            },
        }
    }

    /// Runs the named module's entry point once.
    ///
    /// Resolves the name, moves the slot to Running, asks the guest to
    /// allocate its scratch buffer, installs the execution context,
    /// invokes the entry point, tears the context down, and returns the
    /// slot to Idle. No other module's slot is touched, and an unknown
    /// name fails with `ModuleNotFound` before any guest call.
    pub fn run(&mut self, store: &Store, name: &str) -> (r: Result<(), WabiError>)
        requires
            old(self).wf(),
            store.wf(),
        ensures
            final(self).wf(),
            (r is Ok) == old(self).has_module(name@),
            r matches Err(e) ==> {
                &&& (e matches WabiError::ModuleNotFound(n) && n@ == name@)
                &&& *final(self) == *old(self)
            },
            r is Ok ==> {
                &&& final(self).spec_names() == old(self).spec_names()
                &&& final(self).spec_last_id() == old(self).spec_last_id()
                &&& final(self).spec_instances().len() == old(self).spec_instances().len()
                &&& exists|k: int|
                    0 <= k < old(self).spec_names().len() && (#[trigger] old(
                        self,
                    ).spec_names()[k]).0 == name@ && (forall|i: int|
                        0 <= i < old(self).spec_instances().len() && i != old(
                            self,
                        ).spec_names()[k].1 - 1 ==> #[trigger] final(self).spec_instances()[i]
                            == old(self).spec_instances()[i])
                &&& final(self).spec_log().len() >= old(self).spec_log().len()
                &&& final(self).spec_log().take(old(self).spec_log().len() as int) == old(
                    self,
                ).spec_log()
            },
    {
        let id = match self.get_module_id(name) {
            Ok(id) => id,
            Err(e) => {
                return Err(e);
            },
        };
        proof {
            let k = choose|k: int|
                0 <= k < self.spec_names().len() && #[trigger] self.spec_names()[k] == (name@, id);
            assert(self.instances_name_map@[k].1 == id);
            assert(1 <= id <= self.last_id);
        }
        let idx = (id - 1) as usize;
        let state = self.instances.remove(idx);
        self.instances.insert(idx, InstanceState::Running);
        proof {
            assert(self.instances@ =~= old(self).instances@.update(idx as int, InstanceState::Running));
        }
        let mut instance = state.take();
        instance.run_alloc();
        self.context.setup(id);
        let lines = self.instance_entry(&mut instance, store);
        self.context.teardown();
        let _running_marker = self.instances.remove(idx);
        self.instances.insert(idx, InstanceState::Idle(instance));
        let mut lines = lines;
        self.log.append(&mut lines);
        proof {
            assert(self.instances@ =~= old(self).instances@.update(
                idx as int,
                InstanceState::Idle(instance),
            ));
            assert(self.spec_names() =~= old(self).spec_names());
            assert(self.spec_log().take(old(self).spec_log().len() as int) =~= old(
                self,
            ).spec_log());
            let k = choose|k: int|
                0 <= k < old(self).spec_names().len() && #[trigger] old(self).spec_names()[k] == (
                    name@,
                    id,
                );
            assert(0 <= k < old(self).spec_names().len() && old(self).spec_names()[k].0 == name@
                && (forall|i: int|
                0 <= i < old(self).spec_instances().len() && i != old(self).spec_names()[k].1 - 1
                    ==> #[trigger] self.spec_instances()[i] == old(self).spec_instances()[i]));
        }
        Ok(())
    }

    /// Invokes the guest entry point with the context installed.
    fn instance_entry(&self, instance: &mut P::Instance, store: &Store) -> (lines: Vec<LogLine>)
        requires
            self.context.active_module() == Some(old(instance).spec_id()),
            store.wf(),
            self.type_registry.spec_contains("QueryFetch"@),
        ensures
            final(instance).spec_id() == old(instance).spec_id(),
    {
        instance.run_main(&self.context, &self.type_registry, store)
    }

    /// Runs every loaded module once, in insertion order. A failure in
    /// one module is logged and does not prevent subsequent modules from
    /// running.
    pub fn run_all(&mut self, store: &Store)
        requires
            old(self).wf(),
            store.wf(),
        ensures
            final(self).wf(),
            final(self).spec_names() == old(self).spec_names(),
            final(self).spec_last_id() == old(self).spec_last_id(),
            final(self).spec_instances().len() == old(self).spec_instances().len(),
            final(self).spec_log().len() >= old(self).spec_log().len(),
            final(self).spec_log().take(old(self).spec_log().len() as int) == old(self).spec_log(),
    {
        let mut names: Vec<String> = Vec::new();
        let mut k: usize = 0;
        while k < self.instances_name_map.len()
            invariant
                k <= self.instances_name_map@.len(),
                names@.len() == k,
            decreases self.instances_name_map@.len() - k,
        {
            names.push(self.instances_name_map[k].0.clone());
            k = k + 1;
        }
        let mut t: usize = 0;
        while t < names.len()
            invariant
                self.wf(),
                store.wf(),
                self.spec_names() == old(self).spec_names(),
                self.spec_last_id() == old(self).spec_last_id(),
                self.spec_instances().len() == old(self).spec_instances().len(),
                self.spec_log().len() >= old(self).spec_log().len(),
                self.spec_log().take(old(self).spec_log().len() as int) == old(self).spec_log(),
            decreases names@.len() - t,
        {
            let ghost mid_log = self.log@;
            match self.run(store, names[t].as_str()) {
                Ok(_) => {},
                Err(e) => {
                    let text = e.message();
                    self.log.push(
                        LogLine { severity: crate::log::Severity::Error, text },
                    );
                },
            }
            proof {
                let l0 = old(self).spec_log().len() as int;
                assert(self.spec_log().take(mid_log.len() as int) == mid_log);
                assert(self.spec_log().take(l0) =~= self.spec_log().take(mid_log.len() as int).take(
                    l0,
                ));
                assert(self.spec_log().take(l0) =~= old(self).spec_log());
            }
            t = t + 1;
        }
    }

    /// Hands out the host log lines accumulated so far, clearing the
    /// coordinator's buffer.
    pub fn take_log(&mut self) -> (r: Vec<LogLine>)
        requires
            old(self).wf(),
        ensures
            final(self).wf(),
            r@ == old(self).spec_log(),
            final(self).spec_log().len() == 0,
            final(self).spec_names() == old(self).spec_names(),
            final(self).spec_instances() == old(self).spec_instances(),
    {
        let mut out: Vec<LogLine> = Vec::new();
        core::mem::swap(&mut out, &mut self.log);
        proof {
            assert(self.spec_names() =~= old(self).spec_names());
        }
        out
    }
}

} // verus!
