//! The type registry and the envelope payload codec built on it.
//!
//! The registry is an explicit table of wire type names, built once when a
//! runtime is constructed and never mutated afterwards. A payload decodes
//! only if its inline type name is registered on the receiving side, so
//! both ends must agree that the named shape exists; no compile-time type
//! definitions cross the boundary.

use vstd::prelude::*;

use crate::codec::{
    enc_fetch, enc_log, enc_query, enc_str, fetch_wf, is_prefix, lemma_enc_fetch_inj,
    lemma_enc_log_inj, lemma_enc_query_inj, lemma_enc_str_inj, lemma_prefix_split,
    lemma_prefix_subrange, lemma_skip_skip, log_wf, push_fetch, push_log, push_query, push_str,
    query_wf, read_fetch, read_log, read_query, read_str, str_wf,
};
use crate::log::LogMessage;
use crate::query::{query_model, Query, QueryFetch, QueryFetchItemModel, QueryModel};

verus! {

/// The process-wide table of wire type names with encode/decode behavior.
///
/// Immutable once built: it is assembled at runtime construction and then
/// only read.
pub struct TypeRegistry {
    names: Vec<String>,
}

impl TypeRegistry {
    /// Whether a wire type name is registered.
    pub closed spec fn spec_contains(&self, name: Seq<char>) -> bool {
        exists|k: int| 0 <= k < self.names@.len() && self.names@[k]@ == name
    }

    /// An empty registry.
    pub fn new() -> (r: TypeRegistry)
        ensures
            forall|n: Seq<char>| !r.spec_contains(n),
    {
        TypeRegistry { names: Vec::new() }
    }

    /// Registers a wire type name.
    pub fn register(&mut self, name: String)
        ensures
            forall|n: Seq<char>|
                #[trigger] final(self).spec_contains(n) <==> (old(self).spec_contains(n) || n
                    == name@),
    {
        let ghost pre = self.names@;
        self.names.push(name);
        proof {
            assert forall|n: Seq<char>| #[trigger]
                self.spec_contains(n) <==> (exists|k: int|
                    0 <= k < pre.len() && pre[k]@ == n) || n == name@ by {
                if self.spec_contains(n) {
                    let k = choose|k: int| 0 <= k < self.names@.len() && self.names@[k]@ == n;
                    if k < pre.len() {
                        assert(pre[k]@ == n);
                    } else {
                        assert(self.names@[pre.len() as int]@ == name@);
                    }
                }
                if exists|k: int| 0 <= k < pre.len() && pre[k]@ == n {
                    let k = choose|k: int| 0 <= k < pre.len() && pre[k]@ == n;
                    assert(self.names@[k]@ == n);
                }
                if n == name@ {
                    assert(self.names@[pre.len() as int]@ == n);
                }
            }
        }
    }

    /// Whether the given name is registered, by exact string match.
    pub fn contains(&self, name: &String) -> (r: bool)
        ensures
            r == self.spec_contains(name@),
    {
        let mut k: usize = 0;
        while k < self.names.len()
            invariant
                k <= self.names@.len(),
                forall|t: int| 0 <= t < k ==> self.names@[t]@ != name@,
            decreases self.names@.len() - k,
        {
            if self.names[k] == *name {
                return true;
            }
            k = k + 1;
        }
        false
    }
}

/// Registers the wire message types of the host/guest bridge itself.
pub fn register_api_types(registry: &mut TypeRegistry)
    ensures
        forall|n: Seq<char>|
            #[trigger] final(registry).spec_contains(n) <==> (old(registry).spec_contains(n) || n
                == "LogMessage"@ || n == "Query"@ || n == "QueryFetch"@ || n == "QueryFetchItem"@),
{
    registry.register(String::from_str("LogMessage"));
    registry.register(String::from_str("Query"));
    registry.register(String::from_str("QueryFetch"));
    registry.register(String::from_str("QueryFetchItem"));
}

/// Builds the standard registry shared by host and guests.
pub fn create_type_registry() -> (r: TypeRegistry)
    ensures
        forall|n: Seq<char>|
            #[trigger] r.spec_contains(n) <==> (n == "LogMessage"@ || n == "Query"@ || n
                == "QueryFetch"@ || n == "QueryFetchItem"@),
{
    let mut registry = TypeRegistry::new();
    register_api_types(&mut registry);
    registry
}

/// An envelope payload: one of the closed set of wire message types.
#[derive(Debug)]
pub enum Payload {
    Log(LogMessage),
    Query(Query),
    Fetch(QueryFetch),
}

/// Model of an envelope payload.
pub enum PayloadModel {
    Log(u8, Seq<char>),
    Query(QueryModel),
    Fetch(Seq<QueryFetchItemModel>),
}

/// The model of an envelope payload.
pub open spec fn payload_model(p: Payload) -> PayloadModel {
    match p {
        Payload::Log(msg) => PayloadModel::Log(msg.level, msg.message@),
        Payload::Query(q) => PayloadModel::Query(query_model(q)),
        Payload::Fetch(f) => PayloadModel::Fetch(f.model()),
    }
}

/// The wire type name a payload travels under.
pub open spec fn payload_type_name(m: PayloadModel) -> Seq<char> {
    match m {
        PayloadModel::Log(_, _) => "LogMessage"@,
        PayloadModel::Query(_) => "Query"@,
        PayloadModel::Fetch(_) => "QueryFetch"@,
    }
}

/// A payload the wire format can carry.
pub open spec fn payload_wf(m: PayloadModel) -> bool {
    match m {
        PayloadModel::Log(_, message) => log_wf(message),
        PayloadModel::Query(q) => query_wf(q),
        PayloadModel::Fetch(its) => fetch_wf(its),
    }
}

/// The encoding of an envelope payload: its type name inline, then the
/// body of that type.
pub open spec fn enc_payload(m: PayloadModel) -> Seq<u8> {
    enc_str(payload_type_name(m)) + match m {
        PayloadModel::Log(level, message) => enc_log(level, message),
        PayloadModel::Query(q) => enc_query(q),
        PayloadModel::Fetch(its) => enc_fetch(its),
    }
}

/// The three payload type names are pairwise distinct.
pub proof fn lemma_type_names_distinct()
    ensures
        "LogMessage"@ != "Query"@,
        "LogMessage"@ != "QueryFetch"@,
        "Query"@ != "QueryFetch"@,
        "LogMessage"@ != "QueryFetchItem"@,
        "Query"@ != "QueryFetchItem"@,
        "QueryFetch"@ != "QueryFetchItem"@,
{
    reveal_strlit("LogMessage");
    reveal_strlit("Query");
    reveal_strlit("QueryFetch");
    reveal_strlit("QueryFetchItem");
    assert("LogMessage"@[0] == 'L' && "QueryFetch"@[0] == 'Q');
    assert("LogMessage"@.len() == 10 && "Query"@.len() == 5 && "QueryFetch"@.len() == 10
        && "QueryFetchItem"@.len() == 14);
}

/// Round trip: the wire encoding of envelope payloads is injective, so
/// encoding a well-formed payload and decoding the resulting bytes can
/// only yield a payload structurally equal to the original — whatever
/// the decoder does, no second payload shares those bytes. Together with
/// the contracts of [`encode_payload`] and [`decode_payload`], which pin
/// both directions to `enc_payload` exactly, this is the round-trip law
/// of the registry codec.
pub proof fn lemma_payload_round_trip(a: PayloadModel, b: PayloadModel)
    requires
        payload_wf(a),
        payload_wf(b),
        enc_payload(a) == enc_payload(b),
    ensures
        a == b,
{
    let s = enc_payload(a);
    assert(is_prefix(enc_payload(a), s)) by {
        assert(enc_payload(a) =~= s.subrange(0, enc_payload(a).len() as int));
    }
    lemma_payload_name_prefix(s, a);
    lemma_payload_name_prefix(s, b);
    assert(s.skip(0) =~= s);
    lemma_enc_str_inj(payload_type_name(a), payload_type_name(b), s);
    lemma_type_names_distinct();
    let body_at = s.skip(enc_str(payload_type_name(a)).len() as int);
    match a {
        PayloadModel::Log(la, ma) => {
            assert(b is Log);
            lemma_enc_log_inj(la, ma, b->Log_0, b->Log_1, body_at);
        },
        PayloadModel::Query(qa) => {
            assert(b is Query);
            lemma_enc_query_inj(qa, b->Query_0, body_at);
        },
        PayloadModel::Fetch(fa) => {
            assert(b is Fetch);
            lemma_enc_fetch_inj(fa, b->Fetch_0, body_at);
        },
    }
}

/// Encodes a payload through the registry. Succeeds exactly when the
/// payload's wire type name is registered, and then yields exactly the
/// payload's encoding.
pub fn encode_payload(registry: &TypeRegistry, p: &Payload) -> (r: Option<Vec<u8>>)
    ensures
        r is Some <==> registry.spec_contains(payload_type_name(payload_model(*p))),
        r matches Some(v) ==> {
            &&& v@ == enc_payload(payload_model(*p))
            &&& payload_wf(payload_model(*p))
        },
{
    let name = match p {
        Payload::Log(_) => String::from_str("LogMessage"),
        Payload::Query(_) => String::from_str("Query"),
        Payload::Fetch(_) => String::from_str("QueryFetch"),
    };
    if !registry.contains(&name) {
        return None;
    }
    let mut buf: Vec<u8> = Vec::new();
    push_str(&mut buf, name.as_str());
    match p {
        Payload::Log(msg) => push_log(&mut buf, msg),
        Payload::Query(q) => push_query(&mut buf, q),
        Payload::Fetch(f) => push_fetch(&mut buf, f),
    }
    proof {
        assert(buf@ =~= enc_payload(payload_model(*p)));
    }
    Some(buf)
}

/// Decodes an envelope payload through the registry. Succeeds exactly on
/// the complete encoding of a well-formed payload whose type name is
/// registered, and then yields that payload.
pub fn decode_payload(registry: &TypeRegistry, bytes: &Vec<u8>) -> (r: Option<Payload>)
    ensures
        r matches Some(p) ==> {
            &&& payload_wf(payload_model(p))
            &&& registry.spec_contains(payload_type_name(payload_model(p)))
            &&& bytes@ == enc_payload(payload_model(p))
        },
        forall|m: PayloadModel|
            payload_wf(m) && registry.spec_contains(payload_type_name(m)) && bytes@
                == #[trigger] enc_payload(m) ==> (r matches Some(p) && payload_model(p) == m),
{
    proof {
        lemma_type_names_distinct();
        assert(bytes@.skip(0) =~= bytes@);
    }
    let (tname, j) = match read_str(bytes, 0) {
        Some(p) => p,
        None => {
            proof {
                assert forall|m: PayloadModel|
                    payload_wf(m) && registry.spec_contains(payload_type_name(m)) && bytes@
                        == #[trigger] enc_payload(m) implies false by {
                    lemma_payload_name_prefix(bytes@, m);
                }
            }
            return None;
        },
    };
    if !registry.contains(&tname) {
        proof {
            assert forall|m: PayloadModel|
                payload_wf(m) && registry.spec_contains(payload_type_name(m)) && bytes@
                    == #[trigger] enc_payload(m) implies false by {
                lemma_payload_name_prefix(bytes@, m);
            }
        }
        return None;
    }
    let is_log = tname == String::from_str("LogMessage");
    let is_query = tname == String::from_str("Query");
    let is_fetch = tname == String::from_str("QueryFetch");
    if is_log {
        let (msg, j2) = match read_log(bytes, j) {
            Some(p) => p,
            None => {
                proof {
                    assert forall|m: PayloadModel|
                        payload_wf(m) && registry.spec_contains(payload_type_name(m)) && bytes@
                            == #[trigger] enc_payload(m) implies false by {
                        lemma_payload_name_prefix(bytes@, m);
                    }
                }
                return None;
            },
        };
        if j2 != bytes.len() {
            proof {
                assert forall|m: PayloadModel|
                    payload_wf(m) && registry.spec_contains(payload_type_name(m)) && bytes@
                        == #[trigger] enc_payload(m) implies false by {
                    lemma_payload_name_prefix(bytes@, m);
                }
            }
            return None;
        }
        proof {
            let pm = payload_model(Payload::Log(msg));
            assert(enc_payload(pm) =~= bytes@) by {
                lemma_prefix_subrange(bytes@, 0, enc_str(tname@));
                assert(bytes@.subrange(0, j as int) =~= enc_str(tname@));
                assert(bytes@.subrange(j as int, j2 as int) =~= enc_log(msg.level, msg.message@))
                    by {
                    lemma_prefix_subrange(bytes@, j as int, enc_log(msg.level, msg.message@));
                }
                assert(bytes@ =~= bytes@.subrange(0, j as int) + bytes@.subrange(
                    j as int,
                    j2 as int,
                ));
            }
            assert forall|m: PayloadModel|
                payload_wf(m) && registry.spec_contains(payload_type_name(m)) && bytes@
                    == #[trigger] enc_payload(m) implies payload_model(Payload::Log(msg)) == m by {
                lemma_payload_name_prefix(bytes@, m);
                assert(payload_type_name(m) == tname@);
                assert(m is Log);
                let body = bytes@.skip(j as int);
                assert(msg.level == m->Log_0 && msg.message@ == m->Log_1);
            }
        }
        return Some(Payload::Log(msg));
    }
    if is_query {
        let (q, j2) = match read_query(bytes, j) {
            Some(p) => p,
            None => {
                proof {
                    assert forall|m: PayloadModel|
                        payload_wf(m) && registry.spec_contains(payload_type_name(m)) && bytes@
                            == #[trigger] enc_payload(m) implies false by {
                        lemma_payload_name_prefix(bytes@, m);
                    }
                }
                return None;
            },
        };
        if j2 != bytes.len() {
            proof {
                assert forall|m: PayloadModel|
                    payload_wf(m) && registry.spec_contains(payload_type_name(m)) && bytes@
                        == #[trigger] enc_payload(m) implies false by {
                    lemma_payload_name_prefix(bytes@, m);
                }
            }
            return None;
        }
        proof {
            let pm = payload_model(Payload::Query(q));
            assert(enc_payload(pm) =~= bytes@) by {
                lemma_prefix_subrange(bytes@, 0, enc_str(tname@));
                assert(bytes@.subrange(0, j as int) =~= enc_str(tname@));
                assert(bytes@.subrange(j as int, j2 as int) =~= enc_query(query_model(q))) by {
                    lemma_prefix_subrange(bytes@, j as int, enc_query(query_model(q)));
                }
                assert(bytes@ =~= bytes@.subrange(0, j as int) + bytes@.subrange(
                    j as int,
                    j2 as int,
                ));
            }
            assert forall|m: PayloadModel|
                payload_wf(m) && registry.spec_contains(payload_type_name(m)) && bytes@
                    == #[trigger] enc_payload(m) implies payload_model(Payload::Query(q))
                == m by {
                lemma_payload_name_prefix(bytes@, m);
                assert(payload_type_name(m) == tname@);
                assert(m is Query);
                assert(query_model(q) == m->Query_0);
            }
        }
        return Some(Payload::Query(q));
    }
    if is_fetch {
        let (f, j2) = match read_fetch(bytes, j) {
            Some(p) => p,
            None => {
                proof {
                    assert forall|m: PayloadModel|
                        payload_wf(m) && registry.spec_contains(payload_type_name(m)) && bytes@
                            == #[trigger] enc_payload(m) implies false by {
                        lemma_payload_name_prefix(bytes@, m);
                    }
                }
                return None;
            },
        };
        if j2 != bytes.len() {
            proof {
                assert forall|m: PayloadModel|
                    payload_wf(m) && registry.spec_contains(payload_type_name(m)) && bytes@
                        == #[trigger] enc_payload(m) implies false by {
                    lemma_payload_name_prefix(bytes@, m);
                }
            }
            return None;
        }
        proof {
            let pm = payload_model(Payload::Fetch(f));
            assert(enc_payload(pm) =~= bytes@) by {
                lemma_prefix_subrange(bytes@, 0, enc_str(tname@));
                assert(bytes@.subrange(0, j as int) =~= enc_str(tname@));
                assert(bytes@.subrange(j as int, j2 as int) =~= enc_fetch(f.model())) by {
                    lemma_prefix_subrange(bytes@, j as int, enc_fetch(f.model()));
                }
                assert(bytes@ =~= bytes@.subrange(0, j as int) + bytes@.subrange(
                    j as int,
                    j2 as int,
                ));
            }
            assert forall|m: PayloadModel|
                payload_wf(m) && registry.spec_contains(payload_type_name(m)) && bytes@
                    == #[trigger] enc_payload(m) implies payload_model(Payload::Fetch(f))
                == m by {
                lemma_payload_name_prefix(bytes@, m);
                assert(payload_type_name(m) == tname@);
                assert(m is Fetch);
                assert(f.model() == m->Fetch_0);
            }
        }
        return Some(Payload::Fetch(f));
    }
    proof {
        lemma_type_names_distinct();
        assert forall|m: PayloadModel|
            payload_wf(m) && registry.spec_contains(payload_type_name(m)) && bytes@
                == #[trigger] enc_payload(m) implies false by {
            lemma_payload_name_prefix(bytes@, m);
            assert(payload_type_name(m) == tname@);
        }
    }
    None
}

/// A payload encoding carries its type name first, then its body, and
/// nothing after the body.
proof fn lemma_payload_name_prefix(s: Seq<u8>, m: PayloadModel)
    requires
        payload_wf(m),
        s == enc_payload(m),
    ensures
        str_wf(payload_type_name(m)),
        is_prefix(enc_str(payload_type_name(m)), s.skip(0)),
        match m {
            PayloadModel::Log(level, message) => is_prefix(
                enc_log(level, message),
                s.skip(enc_str(payload_type_name(m)).len() as int),
            ) && s.len() == enc_str(payload_type_name(m)).len() + enc_log(level, message).len(),
            PayloadModel::Query(q) => is_prefix(
                enc_query(q),
                s.skip(enc_str(payload_type_name(m)).len() as int),
            ) && s.len() == enc_str(payload_type_name(m)).len() + enc_query(q).len(),
            PayloadModel::Fetch(its) => is_prefix(
                enc_fetch(its),
                s.skip(enc_str(payload_type_name(m)).len() as int),
            ) && s.len() == enc_str(payload_type_name(m)).len() + enc_fetch(its).len(),
        },
{
    reveal_strlit("LogMessage");
    reveal_strlit("Query");
    reveal_strlit("QueryFetch");
    assert(s.skip(0) =~= s);
    let name = payload_type_name(m);
    let body = match m {
        PayloadModel::Log(level, message) => enc_log(level, message),
        PayloadModel::Query(q) => enc_query(q),
        PayloadModel::Fetch(its) => enc_fetch(its),
    };
    assert(s == enc_str(name) + body);
    assert(is_prefix(enc_str(name) + body, s)) by {
        assert(enc_str(name) + body =~= s.subrange(0, (enc_str(name) + body).len() as int));
    }
    lemma_prefix_split(enc_str(name), body, s);
}

} // verus!
