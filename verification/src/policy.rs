//! What a peer may ask for, by its role and its attributes.

use vstd::prelude::*;
use vstd::string::*;
use crate::claims::PeerRole;
use crate::doc::{Doc, Json};
use crate::json::{or_null, text_or};
use crate::entity::succ;
use crate::state::{emit, Peer, ServerState, State};
use crate::strmap::{StrMap, StrSet};
use crate::text::str_eq;

verus! {

broadcast use {crate::doc::group_json, crate::strmap::group_map};

/// Whether one of three attributes is held.
pub open spec fn holds_one(
    attrs: Set<Seq<char>>,
    a: Seq<char>,
    b: Seq<char>,
    c: Seq<char>,
) -> bool {
    attrs.contains(a) || attrs.contains(b) || attrs.contains(c)
}

/// Whether an attribute alone lets a peer ask for something, whatever its role.
pub open spec fn privileged(attrs: Set<Seq<char>>, op: Seq<char>) -> bool {
    ||| op == "Health"@
    ||| op == "SetComponentAuthority"@ && attrs.contains("kernel_admin"@)
    ||| op == "SnapshotMarker"@ && holds_one(attrs, "snapshot"@, "inspector"@, "kernel_admin"@)
    ||| op == "Drain"@ && holds_one(attrs, "kernel_admin"@, "inspector"@, "ops"@)
    ||| op == "InspectorQuery"@ && holds_one(attrs, "inspector"@, "debug"@, "kernel_admin"@)
}

/// What every peer may send.
pub open spec fn common_ops() -> Set<Seq<char>> {
    set!["Heartbeat"@, "LogMessage"@, "Metrics"@, "Disconnect"@]
}

/// What only the mesh may send.
pub open spec fn mesh_ops() -> Set<Seq<char>> {
    set!["MeshHandoff"@, "MeshAck"@, "MeshGhost"@, "MeshGhostRemove"@]
}

/// Whether a peer of a role may ask for something: a worker for all but what the
/// mesh sends, the others for what is listed.
pub open spec fn role_allows(role: PeerRole, op: Seq<char>) -> bool {
    match role {
        PeerRole::Worker => !mesh_ops().contains(op),
        PeerRole::Client => common_ops().contains(op) || op == "Interest"@ || op == "EntityQuery"@
            || op == "CommandRequest"@ || op == "UpdateComponent"@,
        PeerRole::Observer => common_ops().contains(op) || op == "Interest"@ || op == "EntityQuery"@,
        PeerRole::Mesh => common_ops().contains(op) || mesh_ops().contains(op),
    }
}

/// Whether a peer may ask for something.
pub open spec fn allowed(role: PeerRole, attrs: Set<Seq<char>>, op: Seq<char>) -> bool {
    privileged(attrs, op) || role_allows(role, op)
}

fn is_common_op(op: &str) -> (r: bool)
    ensures
        r == common_ops().contains(op@),
{
    str_eq(op, "Heartbeat") || str_eq(op, "LogMessage") || str_eq(op, "Metrics") || str_eq(
        op,
        "Disconnect",
    )
}

fn is_mesh_op(op: &str) -> (r: bool)
    ensures
        r == mesh_ops().contains(op@),
{
    str_eq(op, "MeshHandoff") || str_eq(op, "MeshAck") || str_eq(op, "MeshGhost") || str_eq(
        op,
        "MeshGhostRemove",
    )
}

fn has_one(attrs: &StrSet, a: &str, b: &str, c: &str) -> (r: bool)
    ensures
        r == holds_one(attrs@, a@, b@, c@),
{
    attrs.contains(a) || attrs.contains(b) || attrs.contains(c)
}

/// Whether a peer may ask for something.
pub fn role_policy_allows(role: PeerRole, attributes: &StrSet, op: &str) -> (r: bool)
    ensures
        r == allowed(role, attributes@, op@),
{
    if str_eq(op, "Health") {
        return true;
    }
    if str_eq(op, "SetComponentAuthority") && attributes.contains("kernel_admin") {
        return true;
    }
    if str_eq(op, "SnapshotMarker") && has_one(attributes, "snapshot", "inspector", "kernel_admin") {
        return true;
    }
    if str_eq(op, "Drain") && has_one(attributes, "kernel_admin", "inspector", "ops") {
        return true;
    }
    if str_eq(op, "InspectorQuery") && has_one(attributes, "inspector", "debug", "kernel_admin") {
        return true;
    }
    match role {
        PeerRole::Worker => !is_mesh_op(op),
        PeerRole::Client => is_common_op(op) || str_eq(op, "Interest") || str_eq(op, "EntityQuery")
            || str_eq(op, "CommandRequest") || str_eq(op, "UpdateComponent"),
        PeerRole::Observer => is_common_op(op) || str_eq(op, "Interest") || str_eq(
            op,
            "EntityQuery",
        ),
        PeerRole::Mesh => is_common_op(op) || is_mesh_op(op),
    }
}

/// What changes the durable state, and so has to be on the log before it is seen.
pub open spec fn persistent_ops() -> Set<Seq<char>> {
    set![
        "CreateEntity"@, "DeleteEntity"@, "AddComponent"@, "RemoveComponent"@, "UpdateComponent"@,
        "BatchUpdate"@, "SetComponentAuthority"@, "MeshHandoff"@, "MeshAck"@, "ThresholdTx"@,
        "Fold"@, "SnapshotMarker"@, "ReserveEntityIds"@
    ]
}

/// Whether something changes the durable state.
pub fn is_persistent_op(op: &str) -> (r: bool)
    ensures
        r == persistent_ops().contains(op@),
{
    str_eq(op, "CreateEntity") || str_eq(op, "DeleteEntity") || str_eq(op, "AddComponent") || str_eq(
        op,
        "RemoveComponent",
    ) || str_eq(op, "UpdateComponent") || str_eq(op, "BatchUpdate") || str_eq(
        op,
        "SetComponentAuthority",
    ) || str_eq(op, "MeshHandoff") || str_eq(op, "MeshAck") || str_eq(op, "ThresholdTx") || str_eq(
        op,
        "Fold",
    ) || str_eq(op, "SnapshotMarker") || str_eq(op, "ReserveEntityIds")
}

/// Only the mesh hands entities over: no attribute lets another role do so.
pub proof fn law_only_the_mesh_hands_over(role: PeerRole, attrs: Set<Seq<char>>)
    requires
        role != PeerRole::Mesh,
    ensures
        !allowed(role, attrs, "MeshHandoff"@),
        !allowed(role, attrs, "MeshAck"@),
{
    lemma_mesh_names();
    assert(!common_ops().contains("MeshHandoff"@));
    assert(!common_ops().contains("MeshAck"@));
    assert(mesh_ops().contains("MeshHandoff"@));
    assert(mesh_ops().contains("MeshAck"@));
}

/// Nobody but a worker creates or deletes: not a client, an observer or a link,
/// whatever its attributes.
pub proof fn law_only_workers_create(role: PeerRole, attrs: Set<Seq<char>>)
    requires
        role != PeerRole::Worker,
    ensures
        !allowed(role, attrs, "CreateEntity"@),
        !allowed(role, attrs, "DeleteEntity"@),
{
    lemma_mesh_names();
    assert(!common_ops().contains("CreateEntity"@));
    assert(!common_ops().contains("DeleteEntity"@));
}

proof fn lemma_mesh_names()
    ensures
        forall|op: Seq<char>|
            #![trigger common_ops().contains(op)]
            op == "MeshHandoff"@ || op == "MeshAck"@ || op == "CreateEntity"@ || op
                == "DeleteEntity"@ ==> {
                &&& !common_ops().contains(op)
                &&& op != "Health"@
                &&& op != "SetComponentAuthority"@
                &&& op != "SnapshotMarker"@
                &&& op != "Drain"@
                &&& op != "InspectorQuery"@
                &&& op != "Interest"@
                &&& op != "EntityQuery"@
                &&& op != "CommandRequest"@
                &&& op != "UpdateComponent"@
            },
        !mesh_ops().contains("CreateEntity"@),
        !mesh_ops().contains("DeleteEntity"@),
{
    reveal_strlit("MeshHandoff");
    reveal_strlit("MeshAck");
    reveal_strlit("MeshGhost");
    reveal_strlit("MeshGhostRemove");
    reveal_strlit("CreateEntity");
    reveal_strlit("DeleteEntity");
    reveal_strlit("Heartbeat");
    reveal_strlit("LogMessage");
    reveal_strlit("Metrics");
    reveal_strlit("Disconnect");
    reveal_strlit("Health");
    reveal_strlit("SetComponentAuthority");
    reveal_strlit("SnapshotMarker");
    reveal_strlit("Drain");
    reveal_strlit("InspectorQuery");
    reveal_strlit("Interest");
    reveal_strlit("EntityQuery");
    reveal_strlit("CommandRequest");
    reveal_strlit("UpdateComponent");
    assert("MeshHandoff"@.len() == 11 && "MeshHandoff"@[0] == 'M' && "MeshHandoff"@[1] == 'e'
        && "MeshHandoff"@[2] == 's');
    assert("MeshAck"@.len() == 7 && "MeshAck"@[0] == 'M' && "MeshAck"@[2] == 's');
    assert("CreateEntity"@.len() == 12 && "CreateEntity"@[0] == 'C');
    assert("DeleteEntity"@.len() == 12 && "DeleteEntity"@[0] == 'D');
    assert("Heartbeat"@.len() == 9);
    assert("LogMessage"@.len() == 10);
    assert("Metrics"@.len() == 7 && "Metrics"@[2] == 't');
    assert("Disconnect"@.len() == 10);
    assert("Health"@.len() == 6);
    assert("SetComponentAuthority"@.len() == 21);
    assert("SnapshotMarker"@.len() == 14);
    assert("Drain"@.len() == 5);
    assert("InspectorQuery"@.len() == 14);
    assert("Interest"@.len() == 8);
    assert("EntityQuery"@.len() == 11 && "EntityQuery"@[0] == 'E');
    assert("CommandRequest"@.len() == 14);
    assert("UpdateComponent"@.len() == 15);
    assert("MeshGhost"@.len() == 9);
    assert("MeshGhostRemove"@.len() == 15);
}

/// The operation that a message asks for.
pub open spec fn op_of(f: Doc) -> Seq<char> {
    text_or(f.get_str("op"@), ""@)
}

/// What a peer is told that asks for what its role may not.
pub open spec fn policy_rejected(f: Doc, role: PeerRole) -> Doc {
    Doc::Obj(
        map![
            "op"@ => Doc::Str("UpdateRejected"@),
            "request_id"@ => or_null(f.get("request_id"@)),
            "entity"@ => or_null(f.get("entity"@)),
            "comp"@ => Doc::Str("role_policy"@),
            "error"@ => Doc::Str("role_policy_error"@),
            "rejected_op"@ => Doc::Str(op_of(f)),
            "peer_role"@ => Doc::Str(role.name()),
            "reason"@ => Doc::Str("role "@ + role.name() + " cannot send "@ + op_of(f))],
    )
}

impl State {
    /// Whether a message is refused because of its sender's role.
    pub open spec fn policy_refuses(self, wid: Seq<char>, f: Doc) -> bool {
        self.workers.contains_key(wid) && !allowed(
            self.workers[wid].role,
            self.workers[wid].attributes,
            op_of(f),
        )
    }
}

/// Refuses a message because of its sender's role.
pub fn reject_role_policy(s: &mut ServerState, wid: &str, f: &Json) -> (r: bool)
    ensures
        r == old(s)@.policy_refuses(wid@, f@),
        final(s)@ == if r {
            old(s)@.emitted(wid@, policy_rejected(f@, old(s)@.workers[wid@].role))
        } else {
            old(s)@
        },
{
    let op = f.str_or("op", "");
    let mut role = PeerRole::Worker;
    match s.workers.get(wid) {
        None => return false,
        Some(w) => {
            if role_policy_allows(w.role, &w.attributes, op) {
                return false;
            }
            role = w.role;
        },
    }
    let mut reason = "role ".to_owned();
    reason.append(role.as_str());
    reason.append(" cannot send ");
    reason.append(op);
    let msg = StrMap::new().with("op", Json::str("UpdateRejected")).with(
        "request_id",
        f.member("request_id"),
    ).with("entity", f.member("entity")).with("comp", Json::str("role_policy")).with(
        "error",
        Json::str("role_policy_error"),
    ).with("rejected_op", Json::str(op)).with("peer_role", Json::str(role.as_str())).with(
        "reason",
        Json::Str(reason),
    ).done();
    emit(s, wid, msg);
    true
}

/// What a message costs at least of its sender's budget.
pub open spec fn op_cost(op: Seq<char>) -> u64 {
    if op == "CreateEntity"@ || op == "DeleteEntity"@ || op == "EntityQuery"@ || op
        == "ReserveEntityIds"@ || op == "SetComponentAuthority"@ || op == "BatchUpdate"@ || op
        == "Fold"@ || op == "CriticalSection"@ {
        4
    } else if op == "MeshHandoff"@ || op == "MeshGhost"@ || op == "MeshAck"@ || op
        == "CommandRequest"@ || op == "CommandResponse"@ {
        2
    } else {
        1
    }
}

/// What a message costs at least of its sender's budget.
pub fn ingress_op_cost(f: &Json) -> (r: u64)
    ensures
        r == op_cost(op_of(f@)),
{
    let op = f.str_or("op", "");
    if str_eq(op, "CreateEntity") || str_eq(op, "DeleteEntity") || str_eq(op, "EntityQuery")
        || str_eq(op, "ReserveEntityIds") || str_eq(op, "SetComponentAuthority") || str_eq(
        op,
        "BatchUpdate",
    ) || str_eq(op, "Fold") || str_eq(op, "CriticalSection") {
        4
    } else if str_eq(op, "MeshHandoff") || str_eq(op, "MeshGhost") || str_eq(op, "MeshAck") || str_eq(
        op,
        "CommandRequest",
    ) || str_eq(op, "CommandResponse") {
        2
    } else {
        1
    }
}

/// What a peer is told whose budget is used up.
pub open spec fn rate_rejected(f: Doc, cost: Doc, tokens: Doc) -> Doc {
    Doc::Obj(
        map![
            "op"@ => Doc::Str("UpdateRejected"@),
            "request_id"@ => or_null(f.get("request_id"@)),
            "entity"@ => or_null(f.get("entity"@)),
            "comp"@ => or_null(f.get("comp"@)),
            "error"@ => Doc::Str("rate_limit_error"@),
            "rate_limited"@ => Doc::Bool(true),
            "limited_op"@ => Doc::Str(op_of(f)),
            "rate_limit_cost"@ => cost,
            "rate_limit_tokens"@ => tokens,
            "reason"@ => Doc::Str("rate_limit_error: ingress cost budget exceeded"@)],
    )
}

impl State {
    /// The state after a message was refused because its sender's budget is used up.
    pub open spec fn rate_refused(self, wid: Seq<char>, f: Doc, cost: Doc, tokens: Doc) -> State {
        if self.workers.contains_key(wid) {
            let w = self.workers[wid];
            (State {
                workers: self.workers.insert(
                    wid,
                    Peer { ingress_rejected: succ(w.ingress_rejected), ..w },
                ),
                ..self
            }).emitted(wid, rate_rejected(f, cost, tokens))
        } else {
            self
        }
    }
}

/// Refuses a message because its sender's budget is used up.
pub fn reject_ingress_rate_limit(s: &mut ServerState, wid: &str, f: &Json, cost: Json, tokens: Json)
    ensures
        final(s)@ == old(s)@.rate_refused(wid@, f@, cost@, tokens@),
{
    match s.workers.remove(wid) {
        None => return,
        Some(mut w) => {
            w.ingress_rejected = w.ingress_rejected.saturating_add(1);
            s.workers.insert(wid, w);
        },
    }
    let msg = StrMap::new().with("op", Json::str("UpdateRejected")).with(
        "request_id",
        f.member("request_id"),
    ).with("entity", f.member("entity")).with("comp", f.member("comp")).with(
        "error",
        Json::str("rate_limit_error"),
    ).with("rate_limited", Json::Bool(true)).with("limited_op", Json::str(f.str_or("op", ""))).with(
        "rate_limit_cost",
        cost,
    ).with("rate_limit_tokens", tokens).with(
        "reason",
        Json::str("rate_limit_error: ingress cost budget exceeded"),
    ).done();
    emit(s, wid, msg);
}

}
