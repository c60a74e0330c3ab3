//! Commands: from a caller to the owner of an entity, and back.

use vstd::prelude::*;
use crate::components::named_entity;
use crate::doc::{Doc, Json};
use crate::entity::opt_is;
use crate::json::{opt_u64_doc, or_null, text_or};
use crate::state::{emit, PendingCommand, Routed, ServerState, State};
use crate::strmap::{Dup, StrMap};
use crate::text::{opt_text, str_eq};

verus! {

broadcast use {crate::doc::group_json, crate::strmap::group_map};

/// The identity of a request.
pub open spec fn request_name(f: Doc) -> Seq<char> {
    text_or(f.get_str("request_id"@), ""@)
}

/// The answer to a command that failed.
pub open spec fn command_failed(req: Seq<char>, reason: Seq<char>) -> Doc {
    Doc::Obj(
        map![
            "op"@ => Doc::Str("CommandResponse"@),
            "request_id"@ => Doc::Str(req),
            "success"@ => Doc::Bool(false),
            "reason"@ => Doc::Str(reason)],
    )
}

fn command_failed_json(req: &str, reason: &str) -> (r: Json)
    ensures
        r@ == command_failed(req@, reason@),
{
    StrMap::new().with("op", Json::str("CommandResponse")).with("request_id", Json::str(req)).with(
        "success",
        Json::Bool(false),
    ).with("reason", Json::str(reason)).done()
}

impl State {
    /// Where a command for an entity goes: to the owner of its position, under that
    /// epoch, or else to the holder of its region.
    pub open spec fn route(self, eid: Seq<char>) -> Option<(Seq<char>, Option<u64>)> {
        if self.entities.contains_key(eid) {
            let e = self.entities[eid];
            if e.authority.contains_key("pos"@) && e.authority["pos"@].owner is Some {
                Some((e.authority["pos"@].owner->0, Some(e.authority["pos"@].epoch)))
            } else {
                match self.holder(eid) {
                    Some(o) => Some((o, None)),
                    None => None,
                }
            }
        } else {
            None
        }
    }

    /// The state after a command was routed, or could not be.
    pub open spec fn commanded(self, wid: Seq<char>, f: Doc) -> State {
        let eid = named_entity(f);
        let req = request_name(f);
        if req.len() == 0 {
            self.emitted(wid, command_failed(req, "missing command request_id"@))
        } else if self.pending_commands.contains_key(req) {
            self.emitted(wid, command_failed(req, "duplicate pending command request_id"@))
        } else if self.route(eid) is Some && self.workers.contains_key((self.route(eid)->0).0) {
            let (owner, epoch) = self.route(eid)->0;
            (State {
                pending_commands: self.pending_commands.insert(
                    req,
                    Routed {
                        caller: wid,
                        entity: eid,
                        owner,
                        authority_comp: "pos"@,
                        authority_epoch: epoch,
                    },
                ),
                ..self
            }).emitted(owner, command_msg(wid, f, epoch))
        } else {
            self.emitted(wid, command_failed(req, "no authoritative worker for entity"@))
        }
    }

    /// Whether the owner of a routed command still owns the entity as it did then.
    pub open spec fn still_owns(self, p: Routed) -> bool {
        &&& self.entities.contains_key(p.entity)
        &&& match p.authority_epoch {
            Some(n) => {
                let a = self.entities[p.entity].authority;
                &&& a.contains_key(p.authority_comp)
                &&& a[p.authority_comp].owner == Some(p.owner)
                &&& a[p.authority_comp].epoch == n
            },
            None => self.holder(p.entity) == Some(p.owner),
        }
    }

    /// Whether a response is to a command that waits for it: from the peer that it
    /// was routed to, and about its entity.
    pub open spec fn responds(self, wid: Seq<char>, f: Doc) -> bool {
        let req = request_name(f);
        &&& self.pending_commands.contains_key(req)
        &&& self.pending_commands[req].owner == wid
        &&& responding_entity(f) == Some(self.pending_commands[req].entity)
    }

    /// The state after a response: it reaches the caller, unless the owner has lost
    /// the entity meanwhile.
    pub open spec fn responded(self, wid: Seq<char>, f: Doc) -> State {
        let req = request_name(f);
        if self.responds(wid, f) {
            let p = self.pending_commands[req];
            let s = State { pending_commands: self.pending_commands.remove(req), ..self };
            s.emitted(
                p.caller,
                if self.still_owns(p) {
                    response_msg(f, p)
                } else {
                    command_failed(req, "stale command authority"@)
                },
            )
        } else {
            self
        }
    }
}

/// A command as its owner gets it.
pub open spec fn command_msg(caller: Seq<char>, f: Doc, epoch: Option<u64>) -> Doc {
    Doc::Obj(
        map![
            "op"@ => Doc::Str("CommandRequest"@),
            "entity"@ => Doc::Str(named_entity(f)),
            "command"@ => or_null(f.get("command"@)),
            "payload"@ => or_null(f.get("payload"@)),
            "request_id"@ => Doc::Str(request_name(f)),
            "caller"@ => Doc::Str(caller),
            "authority_comp"@ => Doc::Str("pos"@),
            "authority_epoch"@ => opt_u64_doc(epoch)],
    )
}

/// The entity that a response is about: its own, or else that of its payload.
pub open spec fn responding_entity(f: Doc) -> Option<Seq<char>> {
    match f.get_str("entity"@) {
        Some(e) => Some(e),
        None => match f.get("payload"@) {
            Some(p) => p.get_str("entity"@),
            None => None,
        },
    }
}

/// A response as the caller gets it.
pub open spec fn response_msg(f: Doc, p: Routed) -> Doc {
    Doc::Obj(
        map![
            "op"@ => Doc::Str("CommandResponse"@),
            "request_id"@ => Doc::Str(request_name(f)),
            "entity"@ => Doc::Str(p.entity),
            "routed_owner"@ => Doc::Str(p.owner),
            "authority_comp"@ => Doc::Str(p.authority_comp),
            "authority_epoch"@ => opt_u64_doc(p.authority_epoch),
            "success"@ => match f.get("success"@) {
                Some(d) => d,
                None => Doc::Bool(true),
            },
            "reason"@ => or_null(f.get("reason"@)),
            "payload"@ => or_null(f.get("payload"@))],
    )
}

fn route_command(s: &ServerState, eid: &str) -> (r: Option<(String, Option<u64>)>)
    ensures
        match r {
            Some((o, n)) => s@.route(eid@) == Some((o@, n)),
            None => s@.route(eid@) is None,
        },
{
    let e = match s.entities.get(eid) {
        Some(e) => e,
        None => return None,
    };
    if let Some(ca) = e.authority.get("pos") {
        if let Some(o) = &ca.owner {
            return Some((o.clone(), Some(ca.epoch)));
        }
    }
    match s.region_worker.get(e.region.as_str()) {
        Some(o) => Some((o.clone(), None)),
        None => None,
    }
}

/// Routes a command to the owner of its entity.
pub fn handle_command_request(s: &mut ServerState, wid: &str, f: &Json)
    ensures
        final(s)@ == old(s)@.commanded(wid@, f@),
{
    let eid = f.str_or("entity", "");
    let req = f.str_or("request_id", "");
    if req.is_empty() {
        emit(s, wid, command_failed_json(req, "missing command request_id"));
        return;
    }
    if s.pending_commands.contains_key(req) {
        emit(s, wid, command_failed_json(req, "duplicate pending command request_id"));
        return;
    }
    if let Some((owner, epoch)) = route_command(s, eid) {
        if s.workers.contains_key(owner.as_str()) {
            s.pending_commands.insert(
                req,
                PendingCommand {
                    caller: wid.to_owned(),
                    entity: eid.to_owned(),
                    owner: owner.clone(),
                    authority_comp: "pos".to_owned(),
                    authority_epoch: epoch,
                },
            );
            let msg = StrMap::new().with("op", Json::str("CommandRequest")).with(
                "entity",
                Json::str(eid),
            ).with("command", f.member("command")).with("payload", f.member("payload")).with(
                "request_id",
                Json::str(req),
            ).with("caller", Json::str(wid)).with("authority_comp", Json::str("pos")).with(
                "authority_epoch",
                Json::opt_u64(epoch),
            ).done();
            emit(s, owner.as_str(), msg);
            return;
        }
    }
    emit(s, wid, command_failed_json(req, "no authoritative worker for entity"));
}

fn owns_still(s: &ServerState, p: &PendingCommand) -> (r: bool)
    ensures
        r == s@.still_owns(p@),
{
    let e = match s.entities.get(p.entity.as_str()) {
        Some(e) => e,
        None => return false,
    };
    match p.authority_epoch {
        Some(n) => match e.authority.get(p.authority_comp.as_str()) {
            Some(ca) => opt_is(&ca.owner, p.owner.as_str()) && ca.epoch == n,
            None => false,
        },
        None => match s.region_worker.get(e.region.as_str()) {
            Some(o) => str_eq(o.as_str(), p.owner.as_str()),
            None => false,
        },
    }
}

fn response_is_about<'a>(f: &'a Json) -> (r: Option<&'a str>)
    ensures
        opt_text(r) == responding_entity(f@),
{
    match f.get_str("entity") {
        Some(e) => Some(e),
        None => match f.get("payload") {
            Some(p) => p.get_str("entity"),
            None => None,
        },
    }
}

/// Brings a response back to the caller.
pub fn handle_command_response(s: &mut ServerState, wid: &str, f: &Json)
    ensures
        final(s)@ == old(s)@.responded(wid@, f@),
{
    let req = f.str_or("request_id", "");
    let mine: bool = match s.pending_commands.get(req) {
        Some(p) => str_eq(p.owner.as_str(), wid) && match response_is_about(f) {
            Some(e) => str_eq(e, p.entity.as_str()),
            None => false,
        },
        None => false,
    };
    if !mine {
        return;
    }
    let mut current: bool = false;
    if let Some(p) = s.pending_commands.get(req) {
        current = owns_still(s, p);
    }
    if let Some(p) = s.pending_commands.remove(req) {
        if !current {
            emit(s, p.caller.as_str(), command_failed_json(req, "stale command authority"));
            return;
        }
        let success = match f.get("success") {
            Some(v) => v.dup(),
            None => Json::Bool(true),
        };
        let msg = StrMap::new().with("op", Json::str("CommandResponse")).with(
            "request_id",
            Json::str(req),
        ).with("entity", Json::str(p.entity.as_str())).with(
            "routed_owner",
            Json::str(p.owner.as_str()),
        ).with("authority_comp", Json::str(p.authority_comp.as_str())).with(
            "authority_epoch",
            Json::opt_u64(p.authority_epoch),
        ).with("success", success).with("reason", f.member("reason")).with(
            "payload",
            f.member("payload"),
        ).done();
        emit(s, p.caller.as_str(), msg);
    }
}

/// Only the owner answers: a response from another peer, or about another entity,
/// neither reaches the caller nor uses up the command.
pub proof fn law_only_the_owner_answers(s: State, wid: Seq<char>, f: Doc)
    requires
        s.pending_commands.contains_key(request_name(f)),
        s.pending_commands[request_name(f)].owner != wid || responding_entity(f) != Some(
            s.pending_commands[request_name(f)].entity,
        ),
    ensures
        s.responded(wid, f) == s,
{
}

/// A command is answered at most once.
pub proof fn law_answered_once(s: State, wid: Seq<char>, f: Doc)
    requires
        s.responds(wid, f),
    ensures
        !s.responded(wid, f).pending_commands.contains_key(request_name(f)),
        !s.responded(wid, f).responds(wid, f),
{
}

}
