//! What the replay tape records: summaries of messages and transfers, without their
//! contents.

use vstd::prelude::*;
use vstd::string::*;
use vstd::utf8::encode_utf8;
use crate::claims::{peer_role_for, role_of};
use crate::doc::{docs, json_text, Doc, Json, Num};
use crate::json::or_null;
use crate::policy::op_of;
use crate::schema::partition_schema_contract_value;
use crate::state::{ServerState, State};
use crate::strmap::{StrMap, StrSet};
use crate::text::{opt_string, opt_text, str_eq};

verus! {

broadcast use {crate::doc::group_json, crate::strmap::group_map};

/// What the protocol says of an operation.
pub struct Semantics {
    pub persistence: String,
    pub category: String,
    pub response_op: Option<String>,
}

/// `Semantics` by their views.
#[verifier::ext_equal]
pub ghost struct Sem {
    pub persistence: Seq<char>,
    pub category: Seq<char>,
    pub response_op: Option<Seq<char>>,
}

impl View for Semantics {
    type V = Sem;

    open spec fn view(&self) -> Sem {
        Sem {
            persistence: self.persistence@,
            category: self.category@,
            response_op: opt_string(self.response_op),
        }
    }
}

/// Optional semantics by their views.
pub open spec fn opt_sem(o: Option<Semantics>) -> Option<Sem> {
    match o {
        Some(s) => Some(s@),
        None => None,
    }
}

/// An object with a member more, where there is a value for it.
pub open spec fn with_some(m: Map<Seq<char>, Doc>, k: Seq<char>, v: Option<Doc>) -> Map<
    Seq<char>,
    Doc,
> {
    match v {
        Some(d) => m.insert(k, d),
        None => m,
    }
}

/// The text at a key.
pub open spec fn text_at(f: Doc, k: Seq<char>) -> Option<Doc> {
    match f.get_str(k) {
        Some(t) => Some(Doc::Str(t)),
        None => None,
    }
}

/// The number at a key.
pub open spec fn number_at(f: Doc, k: Seq<char>) -> Option<Doc> {
    match f.get_u64(k) {
        Some(n) => Some(Doc::Num(Num::Pos(n))),
        None => None,
    }
}

/// How many bytes the value at a key takes.
pub open spec fn bytes_at(f: Doc, k: Seq<char>) -> Option<Doc> {
    match f.get(k) {
        Some(d) => Some(Doc::Num(Num::Pos(encode_utf8(json_text(d)).len() as u64))),
        None => None,
    }
}

/// An optional text as a value.
pub open spec fn opt_text_value(o: Option<Seq<char>>) -> Option<Doc> {
    match o {
        Some(t) => Some(Doc::Str(t)),
        None => None,
    }
}

/// An optional number as a value.
pub open spec fn opt_number_value(o: Option<u64>) -> Option<Doc> {
    match o {
        Some(n) => Some(Doc::Num(Num::Pos(n))),
        None => None,
    }
}

fn put_some(m: StrMap<Json>, k: &str, v: Option<Json>) -> (r: StrMap<Json>)
    ensures
        r@ == with_some(m@, k@, crate::json::opt_json(v)),
{
    match v {
        Some(j) => m.with(k, j),
        None => m,
    }
}

fn put_text(m: StrMap<Json>, f: &Json, k: &str) -> (r: StrMap<Json>)
    ensures
        r@ == with_some(m@, k@, text_at(f@, k@)),
{
    match f.get_str(k) {
        Some(t) => m.with(k, Json::str(t)),
        None => m,
    }
}

fn put_number(m: StrMap<Json>, f: &Json, k: &str) -> (r: StrMap<Json>)
    ensures
        r@ == with_some(m@, k@, number_at(f@, k@)),
{
    match f.get_u64(k) {
        Some(n) => m.with(k, Json::u64(n)),
        None => m,
    }
}

fn put_bytes(m: StrMap<Json>, f: &Json, k: &str, name: &str) -> (r: StrMap<Json>)
    ensures
        r@ == with_some(m@, name@, bytes_at(f@, k@)),
{
    match f.get(k) {
        Some(j) => {
            let t = j.text();
            m.with(name, Json::u64(t.as_str().as_bytes().len() as u64))
        },
        None => m,
    }
}

fn put_opt_text(m: StrMap<Json>, k: &str, v: Option<&str>) -> (r: StrMap<Json>)
    ensures
        r@ == with_some(m@, k@, opt_text_value(opt_text(v))),
{
    match v {
        Some(t) => m.with(k, Json::str(t)),
        None => m,
    }
}

fn put_opt_number(m: StrMap<Json>, k: &str, v: Option<u64>) -> (r: StrMap<Json>)
    ensures
        r@ == with_some(m@, k@, opt_number_value(v)),
{
    match v {
        Some(n) => m.with(k, Json::u64(n)),
        None => m,
    }
}

/// How many elements an array at a key has.
pub open spec fn array_len_at(f: Doc, k: Seq<char>) -> Option<Doc> {
    match f.get(k) {
        Some(Doc::Arr(s)) => Some(Doc::Num(Num::Pos(s.len() as u64))),
        _ => None,
    }
}

/// How many members an object at a key has.
pub open spec fn object_len_at(f: Doc, k: Seq<char>) -> Option<Doc> {
    match f.get(k) {
        Some(Doc::Obj(m)) => Some(Doc::Num(Num::Pos(m.dom().len() as u64))),
        _ => None,
    }
}

/// The parts of a summary that the protocol gives.
pub open spec fn with_semantics(m: Map<Seq<char>, Doc>, sem: Option<Sem>) -> Map<Seq<char>, Doc> {
    match sem {
        Some(s) => with_some(
            m.insert("persistence"@, Doc::Str(s.persistence)).insert(
                "category"@,
                Doc::Str(s.category),
            ),
            "response_op"@,
            opt_text_value(s.response_op),
        ),
        None => m,
    }
}

/// The names in a message that its summary keeps.
pub open spec fn with_names(m: Map<Seq<char>, Doc>, f: Doc) -> Map<Seq<char>, Doc> {
    let a = with_some(m, "request_id"@, text_at(f, "request_id"@));
    let b = with_some(a, "entity"@, text_at(f, "entity"@));
    let c = with_some(b, "comp"@, text_at(f, "comp"@));
    let d = with_some(c, "region"@, text_at(f, "region"@));
    let e = with_some(d, "target"@, text_at(f, "target"@));
    let g = with_some(e, "src_region"@, text_at(f, "src_region"@));
    with_some(g, "authority_epoch"@, number_at(f, "authority_epoch"@))
}

/// The sizes of a message's contents, in place of the contents.
pub open spec fn with_sizes(m: Map<Seq<char>, Doc>, f: Doc) -> Map<Seq<char>, Doc> {
    let a = with_some(m, "value_bytes"@, bytes_at(f, "value"@));
    let b = with_some(a, "payload_bytes"@, bytes_at(f, "payload"@));
    let c = with_some(b, "components_bytes"@, bytes_at(f, "components"@));
    let d = with_some(c, "updates_bytes"@, bytes_at(f, "updates"@));
    let e = with_some(d, "update_count"@, array_len_at(f, "updates"@));
    with_some(e, "component_count"@, object_len_at(f, "components"@))
}

/// The summary of a message. Of a token it says only that there is one.
pub open spec fn op_summary(f: Doc, byte_len: u64, sem: Option<Sem>) -> Doc {
    let head = map![
        "op"@ => Doc::Str(op_of(f)),
        "wire_bytes"@ => Doc::Num(Num::Pos(byte_len))];
    let named = with_names(with_semantics(head, sem), f);
    let marked = with_some(
        named,
        "credential_present"@,
        if f.get("auth_token"@) is Some {
            Some(Doc::Bool(true))
        } else {
            None
        },
    );
    Doc::Obj(with_sizes(marked, f))
}

fn put_sizes(m: StrMap<Json>, f: &Json) -> (r: StrMap<Json>)
    ensures
        r@ == with_sizes(m@, f@),
{
    let a = put_bytes(m, f, "value", "value_bytes");
    let b = put_bytes(a, f, "payload", "payload_bytes");
    let c = put_bytes(b, f, "components", "components_bytes");
    let d = put_bytes(c, f, "updates", "updates_bytes");
    let updates: Option<Json> = match f.get("updates") {
        Some(u) => match u.as_array() {
            Some(v) => {
                proof {
                    assert(docs(v@).len() == v@.len());
                }
                Some(Json::u64(v.len() as u64))
            },
            None => None,
        },
        None => None,
    };
    let e = put_some(d, "update_count", updates);
    let comps: Option<Json> = match f.get("components") {
        Some(c) => match c.as_object() {
            Some(m) => Some(Json::u64(m.len() as u64)),
            None => None,
        },
        None => None,
    };
    put_some(e, "component_count", comps)
}

/// The summary of a message.
pub fn replay_tape_op_summary(f: &Json, byte_len: u64, sem: &Option<Semantics>) -> (r: Json)
    ensures
        r@ == op_summary(f@, byte_len, opt_sem(*sem)),
{
    let head = StrMap::new().with("op", Json::str(f.str_or("op", ""))).with(
        "wire_bytes",
        Json::u64(byte_len),
    );
    let told = match sem {
        Some(s) => {
            let a = head.with("persistence", Json::str(s.persistence.as_str())).with(
                "category",
                Json::str(s.category.as_str()),
            );
            put_opt_text(a, "response_op", crate::entity::as_opt_str(&s.response_op))
        },
        None => head,
    };
    let a = put_text(told, f, "request_id");
    let b = put_text(a, f, "entity");
    let c = put_text(b, f, "comp");
    let d = put_text(c, f, "region");
    let e = put_text(d, f, "target");
    let g = put_text(e, f, "src_region");
    let h = put_number(g, f, "authority_epoch");
    let marked = if f.get("auth_token").is_some() {
        h.with("credential_present", Json::Bool(true))
    } else {
        h
    };
    put_sizes(marked, f).done()
}

impl State {
    /// An event with the schema of the space.
    pub open spec fn with_schema(self, m: Map<Seq<char>, Doc>, registry_version: u64) -> Map<
        Seq<char>,
        Doc,
    > {
        m.insert("spatial_dim"@, Doc::Str("D2"@)).insert(
            "coordinate_codec"@,
            Doc::Str("debug_f64_2"@),
        ).insert("component_registry_version"@, Doc::Num(Num::Pos(registry_version))).insert(
            "partition_schema"@,
            self.partition_schema(),
        )
    }

    /// The name of a peer's role.
    pub open spec fn role_name(self, wid: Seq<char>) -> Seq<char> {
        if self.workers.contains_key(wid) {
            self.workers[wid].role.name()
        } else {
            "unknown"@
        }
    }

    /// The region of a peer.
    pub open spec fn peer_region(self, wid: Seq<char>) -> Seq<char> {
        if self.workers.contains_key(wid) {
            self.workers[wid].region
        } else {
            ""@
        }
    }

    /// The record of a message that came in.
    pub open spec fn ingress_event(
        self,
        wid: Seq<char>,
        summary: Doc,
        outcome: Seq<char>,
        reason: Option<Seq<char>>,
        registry_version: u64,
        now_ms: u64,
    ) -> Doc {
        let m = map![
            "kind"@ => Doc::Str("broker_ingress"@),
            "t_ms"@ => Doc::Num(Num::Pos(now_ms)),
            "peer"@ => Doc::Str(wid),
            "role"@ => Doc::Str(self.role_name(wid)),
            "region"@ => Doc::Str(self.peer_region(wid)),
            "outcome"@ => Doc::Str(outcome),
            "durable_gen"@ => Doc::Num(Num::Pos(self.wal.durable_gen)),
            "pending_gen"@ => Doc::Num(Num::Pos(self.wal.pending_gen))];
        Doc::Obj(
            with_some(
                self.with_schema(m, registry_version).insert("op_summary"@, summary),
                "reason"@,
                opt_text_value(reason),
            ),
        )
    }
}

fn put_schema(s: &ServerState, m: StrMap<Json>, registry_version: u64) -> (r: StrMap<Json>)
    ensures
        r@ == s@.with_schema(m@, registry_version),
{
    m.with("spatial_dim", Json::str("D2")).with("coordinate_codec", Json::str("debug_f64_2")).with(
        "component_registry_version",
        Json::u64(registry_version),
    ).with("partition_schema", partition_schema_contract_value(s))
}

fn role_and_region<'a>(s: &'a ServerState, wid: &str) -> (r: (&'a str, &'a str))
    ensures
        (r.0)@ == s@.role_name(wid@),
        (r.1)@ == s@.peer_region(wid@),
{
    match s.workers.get(wid) {
        Some(w) => (w.role.as_str(), w.region.as_str()),
        None => ("unknown", ""),
    }
}

/// The record of a message that came in.
pub fn replay_tape_ingress(
    s: &ServerState,
    wid: &str,
    summary: Json,
    outcome: &str,
    reason: Option<&str>,
    registry_version: u64,
    now_ms: u64,
) -> (r: Json)
    ensures
        r@ == s@.ingress_event(
            wid@,
            summary@,
            outcome@,
            opt_text(reason),
            registry_version,
            now_ms,
        ),
{
    let (role, region) = role_and_region(s, wid);
    let m = StrMap::new().with("kind", Json::str("broker_ingress")).with("t_ms", Json::u64(now_ms)).with(
        "peer",
        Json::str(wid),
    ).with("role", Json::str(role)).with("region", Json::str(region)).with("outcome", Json::str(outcome)).with(
        "durable_gen",
        Json::u64(s.wal.durable_gen),
    ).with("pending_gen", Json::u64(s.wal.pending_gen));
    let m = put_schema(s, m, registry_version).with("op_summary", summary);
    put_opt_text(m, "reason", reason).done()
}

impl State {
    /// The record of a connection.
    pub open spec fn connect_event(
        self,
        wid: Seq<char>,
        f: Doc,
        byte_len: u64,
        region: Seq<char>,
        attributes: Set<Seq<char>>,
        outcome: Seq<char>,
        reason: Option<Seq<char>>,
        registry_version: u64,
        now_ms: u64,
    ) -> Doc {
        let m = map![
            "kind"@ => Doc::Str("broker_connect"@),
            "t_ms"@ => Doc::Num(Num::Pos(now_ms)),
            "peer"@ => Doc::Str(wid),
            "role"@ => Doc::Str(role_of(region, attributes).name()),
            "region"@ => Doc::Str(region),
            "outcome"@ => Doc::Str(outcome),
            "wire_bytes"@ => Doc::Num(Num::Pos(byte_len)),
            "requested_region"@ => or_null(f.get("region"@)),
            "proto"@ => or_null(f.get("proto"@)),
            "credential_present"@ => Doc::Bool(f.get("auth_token"@) is Some),
            "attribute_count"@ => Doc::Num(Num::Pos(attributes.len() as u64))];
        Doc::Obj(
            with_some(
                self.with_schema(m, registry_version),
                "reason"@,
                opt_text_value(reason),
            ),
        )
    }
}

/// The record of a connection.
pub fn replay_tape_connect(
    s: &ServerState,
    wid: &str,
    f: &Json,
    byte_len: u64,
    region: &str,
    attributes: &StrSet,
    outcome: &str,
    reason: Option<&str>,
    registry_version: u64,
    now_ms: u64,
) -> (r: Json)
    ensures
        r@ == s@.connect_event(
            wid@,
            f@,
            byte_len,
            region@,
            attributes@,
            outcome@,
            opt_text(reason),
            registry_version,
            now_ms,
        ),
{
    let role = peer_role_for(region, attributes);
    let m = StrMap::new().with("kind", Json::str("broker_connect")).with("t_ms", Json::u64(now_ms)).with(
        "peer",
        Json::str(wid),
    ).with("role", Json::str(role.as_str())).with("region", Json::str(region)).with(
        "outcome",
        Json::str(outcome),
    ).with("wire_bytes", Json::u64(byte_len)).with("requested_region", f.member("region")).with(
        "proto",
        f.member("proto"),
    ).with("credential_present", Json::Bool(f.get("auth_token").is_some())).with(
        "attribute_count",
        Json::u64(attributes.len() as u64),
    );
    put_opt_text(put_schema(s, m, registry_version), "reason", reason).done()
}

/// A transfer that is recorded.
pub struct HandoffRecord {
    pub path: String,
    pub eid: String,
    pub from: Option<String>,
    pub to: Option<String>,
    pub authority_epoch: Option<u64>,
    pub source_durable_gen: Option<u64>,
    pub lease_epoch: Option<u64>,
}

/// A `HandoffRecord` by its views.
#[verifier::ext_equal]
pub ghost struct Moved {
    pub path: Seq<char>,
    pub eid: Seq<char>,
    pub from: Option<Seq<char>>,
    pub to: Option<Seq<char>>,
    pub authority_epoch: Option<u64>,
    pub source_durable_gen: Option<u64>,
    pub lease_epoch: Option<u64>,
}

impl View for HandoffRecord {
    type V = Moved;

    open spec fn view(&self) -> Moved {
        Moved {
            path: self.path@,
            eid: self.eid@,
            from: opt_string(self.from),
            to: opt_string(self.to),
            authority_epoch: self.authority_epoch,
            source_durable_gen: self.source_durable_gen,
            lease_epoch: self.lease_epoch,
        }
    }
}

impl State {
    /// The record of a transfer.
    pub open spec fn handoff_record(self, h: Moved, registry_version: u64, now_ms: u64) -> Doc {
        let m = map![
            "kind"@ => Doc::Str("broker_handoff"@),
            "t_ms"@ => Doc::Num(Num::Pos(now_ms)),
            "path"@ => Doc::Str(h.path),
            "entity"@ => Doc::Str(h.eid),
            "durable_gen"@ => Doc::Num(Num::Pos(self.wal.durable_gen))];
        let a = with_some(
            self.with_schema(m, registry_version),
            "from"@,
            opt_text_value(h.from),
        );
        let b = with_some(a, "to"@, opt_text_value(h.to));
        let c = with_some(b, "authority_epoch"@, opt_number_value(h.authority_epoch));
        let d = with_some(c, "source_durable_gen"@, opt_number_value(h.source_durable_gen));
        Doc::Obj(with_some(d, "lease_epoch"@, opt_number_value(h.lease_epoch)))
    }
}

/// The record of a transfer.
pub fn replay_tape_handoff(s: &ServerState, h: &HandoffRecord, registry_version: u64, now_ms: u64) -> (r:
    Json)
    ensures
        r@ == s@.handoff_record(h@, registry_version, now_ms),
{
    let m = StrMap::new().with("kind", Json::str("broker_handoff")).with("t_ms", Json::u64(now_ms)).with(
        "path",
        Json::str(h.path.as_str()),
    ).with("entity", Json::str(h.eid.as_str())).with("durable_gen", Json::u64(s.wal.durable_gen));
    let a = put_opt_text(
        put_schema(s, m, registry_version),
        "from",
        crate::entity::as_opt_str(&h.from),
    );
    let b = put_opt_text(a, "to", crate::entity::as_opt_str(&h.to));
    let c = put_opt_number(b, "authority_epoch", h.authority_epoch);
    let d = put_opt_number(c, "source_durable_gen", h.source_durable_gen);
    put_opt_number(d, "lease_epoch", h.lease_epoch).done()
}

/// Whether a message to a peer is recorded.
pub open spec fn is_recorded(v: Doc) -> bool {
    op_of(v) == "UpdateRejected"@ || op_of(v) == "AuthorityChange"@
}

/// The flag at a key.
pub open spec fn flag_at(f: Doc, k: Seq<char>) -> Option<Doc> {
    match f.get(k) {
        Some(Doc::Bool(b)) => Some(Doc::Bool(b)),
        _ => None,
    }
}

impl State {
    /// The record of a message that went out.
    pub open spec fn emit_event(
        self,
        wid: Seq<char>,
        v: Doc,
        registry_version: u64,
        now_ms: u64,
    ) -> Doc {
        let m = map![
            "kind"@ => Doc::Str("broker_outbound"@),
            "t_ms"@ => Doc::Num(Num::Pos(now_ms)),
            "peer"@ => Doc::Str(wid),
            "role"@ => Doc::Str(self.role_name(wid)),
            "region"@ => Doc::Str(self.peer_region(wid)),
            "op"@ => Doc::Str(op_of(v)),
            "durable_gen"@ => Doc::Num(Num::Pos(self.wal.durable_gen))];
        let s = self.with_schema(m, registry_version);
        let a = with_some(s, "request_id"@, text_at(v, "request_id"@));
        let b = with_some(a, "entity"@, text_at(v, "entity"@));
        let c = with_some(b, "comp"@, text_at(v, "comp"@));
        let d = with_some(c, "reason"@, text_at(v, "reason"@));
        let e = with_some(d, "error"@, text_at(v, "error"@));
        let f = with_some(e, "rejected_op"@, text_at(v, "rejected_op"@));
        let g = with_some(f, "peer_role"@, text_at(v, "peer_role"@));
        let h = with_some(g, "authoritative"@, flag_at(v, "authoritative"@));
        let i = with_some(h, "authority_epoch"@, number_at(v, "authority_epoch"@));
        Doc::Obj(with_some(i, "mode"@, text_at(v, "mode"@)))
    }
}

/// The record of a message that went out; none where it is not recorded.
pub fn replay_tape_emit(
    s: &ServerState,
    wid: &str,
    v: &Json,
    registry_version: u64,
    now_ms: u64,
) -> (r: Option<Json>)
    ensures
        crate::json::opt_json(r) == if is_recorded(v@) {
            Some(s@.emit_event(wid@, v@, registry_version, now_ms))
        } else {
            None
        },
{
    let op = v.str_or("op", "");
    if !str_eq(op, "UpdateRejected") && !str_eq(op, "AuthorityChange") {
        return None;
    }
    let (role, region) = role_and_region(s, wid);
    let m = StrMap::new().with("kind", Json::str("broker_outbound")).with("t_ms", Json::u64(now_ms)).with(
        "peer",
        Json::str(wid),
    ).with("role", Json::str(role)).with("region", Json::str(region)).with("op", Json::str(op)).with(
        "durable_gen",
        Json::u64(s.wal.durable_gen),
    );
    let m = put_schema(s, m, registry_version);
    let a = put_text(m, v, "request_id");
    let b = put_text(a, v, "entity");
    let c = put_text(b, v, "comp");
    let d = put_text(c, v, "reason");
    let e = put_text(d, v, "error");
    let f = put_text(e, v, "rejected_op");
    let g = put_text(f, v, "peer_role");
    let flag: Option<Json> = match v.get("authoritative") {
        Some(j) => match j.as_bool() {
            Some(b) => Some(Json::Bool(b)),
            None => None,
        },
        None => None,
    };
    let h = put_some(g, "authoritative", flag);
    let i = put_number(h, v, "authority_epoch");
    Some(put_text(i, v, "mode").done())
}

/// A summary never holds a token: what it says of a message is the same whatever token the
/// message carries.
pub proof fn law_summary_hides_the_token(
    m: Map<Seq<char>, Doc>,
    a: Seq<char>,
    b: Seq<char>,
    byte_len: u64,
    sem: Option<Sem>,
)
    ensures
        op_summary(Doc::Obj(m.insert("auth_token"@, Doc::Str(a))), byte_len, sem) == op_summary(
            Doc::Obj(m.insert("auth_token"@, Doc::Str(b))),
            byte_len,
            sem,
        ),
{
    reveal_strlit("auth_token");
    reveal_strlit("op");
    reveal_strlit("request_id");
    reveal_strlit("entity");
    reveal_strlit("comp");
    reveal_strlit("region");
    reveal_strlit("target");
    reveal_strlit("src_region");
    reveal_strlit("authority_epoch");
    reveal_strlit("value");
    reveal_strlit("payload");
    reveal_strlit("components");
    reveal_strlit("updates");
    assert("auth_token"@.len() == 10 && "auth_token"@[0] == 'a');
    assert("op"@.len() == 2 && "request_id"@.len() == 10 && "request_id"@[0] == 'r');
    assert("entity"@.len() == 6 && "comp"@.len() == 4 && "region"@.len() == 6 && "target"@.len() == 6);
    assert("src_region"@.len() == 10 && "src_region"@[0] == 's');
    assert("authority_epoch"@.len() == 15 && "value"@.len() == 5 && "payload"@.len() == 7);
    assert("components"@.len() == 10 && "components"@[0] == 'c' && "updates"@.len() == 7);
    let x = Doc::Obj(m.insert("auth_token"@, Doc::Str(a)));
    let y = Doc::Obj(m.insert("auth_token"@, Doc::Str(b)));
    assert forall|k: Seq<char>| k != "auth_token"@ implies #[trigger] x.get(k) == y.get(k) by {}
    assert(x.get("op"@) == y.get("op"@));
    assert(x.get("request_id"@) == y.get("request_id"@));
    assert(x.get("entity"@) == y.get("entity"@));
    assert(x.get("comp"@) == y.get("comp"@));
    assert(x.get("region"@) == y.get("region"@));
    assert(x.get("target"@) == y.get("target"@));
    assert(x.get("src_region"@) == y.get("src_region"@));
    assert(x.get("authority_epoch"@) == y.get("authority_epoch"@));
    assert(x.get("value"@) == y.get("value"@));
    assert(x.get("payload"@) == y.get("payload"@));
    assert(x.get("components"@) == y.get("components"@));
    assert(x.get("updates"@) == y.get("updates"@));
}

}
