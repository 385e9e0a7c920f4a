//! A scripted in-process backend.
//!
//! Each mock instance plays a guest that performs a fixed list of import
//! calls when its entry point runs: it encodes each envelope into its
//! scratch buffer, hands buffer and action code to the host's action
//! handler, and decodes any response written back. This exercises the
//! whole bridge — coordinator, context, registry, codec and dispatch —
//! without a sandbox engine.

use vstd::prelude::*;

use crate::context::Context;
use crate::dispatch::process_action;
use crate::guest::{log_message, parse_query_response, query_call, test_call, GuestCall};
use crate::log::{LogLine, LogMessage};
use crate::query::{query_model, Filter, Query};
use crate::registry::TypeRegistry;
use crate::runtime::{InstancePlatform, RuntimePlatform};
use crate::store::Store;

verus! {

/// One scripted guest action: a log request, a query, a diagnostic echo,
/// or raw bytes under an arbitrary action code.
pub enum GuestStep {
    Log(u8, String),
    Query(Query),
    Test(LogMessage),
    Raw(Vec<u8>, u8),
}

/// Copies a byte vector.
fn clone_bytes(v: &Vec<u8>) -> (r: Vec<u8>)
    ensures
        r@ == v@,
{
    let mut out: Vec<u8> = Vec::new();
    let mut k: usize = 0;
    while k < v.len()
        invariant
            k <= v@.len(),
            out@ == v@.take(k as int),
        decreases v@.len() - k,
    {
        out.push(v[k]);
        proof {
            assert(out@ =~= v@.take(k + 1));
        }
        k = k + 1;
    }
    proof {
        assert(v@.take(v@.len() as int) =~= v@);
    }
    out
}

/// Copies a list of names.
fn clone_strings(v: &Vec<String>) -> (r: Vec<String>)
    ensures
        r@ == v@,
{
    let mut out: Vec<String> = Vec::new();
    let mut k: usize = 0;
    while k < v.len()
        invariant
            k <= v@.len(),
            out@ == v@.take(k as int),
        decreases v@.len() - k,
    {
        out.push(v[k].clone());
        proof {
            assert(out@ =~= v@.take(k + 1));
        }
        k = k + 1;
    }
    proof {
        assert(v@.take(v@.len() as int) =~= v@);
    }
    out
}

/// Copies a list of filter clauses.
fn clone_filters(v: &Vec<Filter>) -> (r: Vec<Filter>)
    ensures
        r@ == v@,
{
    let mut out: Vec<Filter> = Vec::new();
    let mut k: usize = 0;
    while k < v.len()
        invariant
            k <= v@.len(),
            out@ == v@.take(k as int),
        decreases v@.len() - k,
    {
        let f = match &v[k] {
            Filter::With(name) => Filter::With(name.clone()),
            Filter::Without(name) => Filter::Without(name.clone()),
            Filter::Changed(name) => Filter::Changed(name.clone()),
        };
        out.push(f);
        proof {
            assert(out@ =~= v@.take(k + 1));
        }
        k = k + 1;
    }
    proof {
        assert(v@.take(v@.len() as int) =~= v@);
    }
    out
}

/// Builds the import call a scripted step performs.
fn build_call(step: &GuestStep) -> (c: GuestCall)
    ensures
        match *step {
            GuestStep::Log(level, msg) => c.bytes@ == crate::registry::enc_payload(
                crate::registry::PayloadModel::Log(level, msg@),
            ) && c.action == 0,
            GuestStep::Query(q) => c.bytes@ == crate::registry::enc_payload(
                crate::registry::PayloadModel::Query(query_model(q)),
            ) && c.action == 1,
            GuestStep::Test(m) => c.bytes@ == crate::registry::enc_payload(
                crate::registry::PayloadModel::Log(m.level, m.message@),
            ) && c.action == 254,
            GuestStep::Raw(bytes, code) => c.bytes@ == bytes@ && c.action == code,
        },
{
    match step {
        GuestStep::Log(level, msg) => log_message(*level, msg.clone()),
        GuestStep::Query(q) => {
            let copy = Query {
                components: clone_strings(&q.components),
                filters: clone_filters(&q.filters),
            };
            proof {
                assert(query_model(copy) == query_model(*q));
            }
            query_call(copy)
        },
        GuestStep::Test(m) => test_call(LogMessage { level: m.level, message: m.message.clone() }),
        GuestStep::Raw(bytes, code) => GuestCall { bytes: clone_bytes(bytes), action: *code },
    }
}

/// A scripted guest instance. The scratch buffer models the guest-owned
/// shared region: each call's envelope is written into it and any
/// response is written back over it.
pub struct MockInstance {
    pub id: u32,
    pub buffer: Vec<u8>,
    pub script: Vec<GuestStep>,
}

impl InstancePlatform for MockInstance {
    open spec fn spec_id(&self) -> u32 {
        self.id
    }

    fn id(&self) -> (r: u32) {
        self.id
    }

    fn run_alloc(&mut self) {
        self.buffer = Vec::new();
    }

    fn run_main(&mut self, ctx: &Context, registry: &TypeRegistry, store: &Store) -> (lines: Vec<
        LogLine,
    >) {
        let mut lines: Vec<LogLine> = Vec::new();
        let mut t: usize = 0;
        while t < self.script.len()
            invariant
                ctx.active_module() == Some(self.id),
                store.wf(),
                registry.spec_contains("QueryFetch"@),
                self.id == old(self).id,
            decreases self.script@.len() - t,
        {
            let call = build_call(&self.script[t]);
            self.buffer = call.bytes;
            let (response, mut ls) = process_action(
                ctx,
                registry,
                store,
                self.id,
                &self.buffer,
                call.action,
            );
            lines.append(&mut ls);
            match response {
                Some(out) => {
                    self.buffer = out;
                    let _fetch = parse_query_response(&self.buffer);
                },
                None => {},
            }
            t = t + 1;
        }
        lines
    }
}

/// A scripted backend: hands each loaded module the next pending script.
pub struct MockRuntime {
    pub pending: Vec<Vec<GuestStep>>,
}

impl MockRuntime {
    /// A backend with no scripts: every guest runs an empty entry point.
    pub fn new() -> (r: MockRuntime)
        ensures
            r.pending@.len() == 0,
    {
        MockRuntime { pending: Vec::new() }
    }

    /// Queues the script for the next module to be loaded.
    pub fn push_script(&mut self, script: Vec<GuestStep>)
        ensures
            final(self).pending@.len() == old(self).pending@.len() + 1,
    {
        self.pending.push(script);
    }
}

impl RuntimePlatform for MockRuntime {
    type Instance = MockInstance;

    fn load_module(&mut self, id: u32, bytes: &Vec<u8>) -> (r: MockInstance) {
        let script = if self.pending.len() > 0 {
            self.pending.remove(0)
        } else {
            Vec::new()
        };
        MockInstance { id, buffer: Vec::new(), script }
    }
}

} // verus!
