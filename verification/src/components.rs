//! Components that come and go, and the authority over them that an administrator
//! sets.

use vstd::prelude::*;
use vstd::string::*;
use crate::doc::{Doc, Json, Num};
use crate::entity::{
    authority_epoch_from_value, component_authority_owner, dup_opt, ensure_component_authority,
    opt_is, succ, value_epoch, Auth, AuthorityMode, ComponentAuthority, Ent,
};
use crate::grants::{
    authoritative_component_writer, grant_authority, reject_kernel_reserved_write,
    reject_stale_authority_epoch_val, reserved_reason, revoke_authority, stale_rejected,
    update_rejected, update_rejected_json,
};
use crate::json::{opt_text_doc, or_null, text_or};
use crate::sight::tell_viewers;
use crate::state::{emit, worker_has_attr, ServerState, State};
use crate::strmap::{Dup, StrMap};
use crate::text::{decimal, opt_string, str_eq, u64_text};

verus! {

broadcast use {crate::doc::group_json, crate::strmap::group_map};

/// A change of the authority over a component that is ready for the log.
pub struct AuthorityChange {
    pub eid: String,
    pub comp: String,
    pub owner: Option<String>,
    pub old_owner: Option<String>,
    pub mode: AuthorityMode,
    pub epoch: u64,
    pub version: u64,
}

/// An `AuthorityChange` by its views.
#[verifier::ext_equal]
pub ghost struct Change {
    pub eid: Seq<char>,
    pub comp: Seq<char>,
    pub owner: Option<Seq<char>>,
    pub old_owner: Option<Seq<char>>,
    pub mode: AuthorityMode,
    pub epoch: u64,
    pub version: u64,
}

impl View for AuthorityChange {
    type V = Change;

    open spec fn view(&self) -> Change {
        Change {
            eid: self.eid@,
            comp: self.comp@,
            owner: opt_string(self.owner),
            old_owner: opt_string(self.old_owner),
            mode: self.mode,
            epoch: self.epoch,
            version: self.version,
        }
    }
}

/// The entity that a message speaks of.
pub open spec fn named_entity(f: Doc) -> Seq<char> {
    text_or(f.get_str("entity"@), ""@)
}

/// The component that a message speaks of.
pub open spec fn named_comp(f: Doc) -> Seq<char> {
    text_or(f.get_str("comp"@), ""@)
}

/// What an administrator is told whose change is refused.
pub open spec fn change_refused(f: Doc, reason: Seq<char>) -> Doc {
    let eid = named_entity(f);
    let comp = named_comp(f);
    match f.get("request_id"@) {
        Some(req) => Doc::Obj(
            map![
                "op"@ => Doc::Str("SetComponentAuthorityResponse"@),
                "request_id"@ => req,
                "entity"@ => Doc::Str(eid),
                "comp"@ => Doc::Str(comp),
                "success"@ => Doc::Bool(false),
                "reason"@ => Doc::Str(reason)],
        ),
        None => update_rejected(eid, comp, reason),
    }
}

/// What an administrator is told whose change expects another epoch.
pub open spec fn change_mismatched(f: Doc, expected: u64, current: u64) -> Doc {
    let reason = "authority_epoch fence mismatch: expected current "@ + decimal(current as nat)
        + ", got "@ + decimal(expected as nat);
    Doc::Obj(
        change_refused(f, reason)->Obj_0.insert(
            "current_authority_epoch"@,
            Doc::Num(Num::Pos(current)),
        ),
    )
}

fn refuse_change(f: &Json, reason: &str) -> (r: StrMap<Json>)
    ensures
        Doc::Obj(r@) == change_refused(f@, reason@),
{
    let eid = f.str_or("entity", "");
    let comp = f.str_or("comp", "");
    match f.get("request_id") {
        Some(req) => StrMap::new().with("op", Json::str("SetComponentAuthorityResponse")).with(
            "request_id",
            req.dup(),
        ).with("entity", Json::str(eid)).with("comp", Json::str(comp)).with(
            "success",
            Json::Bool(false),
        ).with("reason", Json::str(reason)),
        None => StrMap::new().with("op", Json::str("UpdateRejected")).with("entity", Json::str(eid)).with(
            "comp",
            Json::str(comp),
        ).with("reason", Json::str(reason)),
    }
}

/// The owner that a change names; none where it is empty.
pub open spec fn named_owner(f: Doc) -> Option<Seq<char>> {
    match f.get_str("owner"@) {
        Some(o) => if o.len() > 0 {
            Some(o)
        } else {
            None
        },
        None => None,
    }
}

/// The mode that a change names.
pub open spec fn named_mode(f: Doc) -> Option<AuthorityMode> {
    match f.get_str("mode"@) {
        Some(m) => AuthorityMode::of_wire(m),
        None => None,
    }
}

impl State {
    /// Whether a change of authority is accepted: an administrator asks for it, the
    /// entity is here, and the epoch, where one is stated, is the current one.
    pub open spec fn changes_authority(self, wid: Seq<char>, f: Doc) -> bool {
        &&& self.has_attr(wid, "kernel_admin"@)
        &&& self.entities.contains_key(named_entity(f))
        &&& value_epoch(f) is Some ==> value_epoch(f)->0 == self.entities[named_entity(f)].recorded(
            named_comp(f),
        ).epoch
    }

    /// The change that a request asks for: it raises the epoch.
    pub open spec fn change_of(self, f: Doc) -> Change {
        let e = self.entities[named_entity(f)];
        let a = e.recorded(named_comp(f));
        Change {
            eid: named_entity(f),
            comp: named_comp(f),
            owner: named_owner(f),
            old_owner: e.owner(named_comp(f)),
            mode: match named_mode(f) {
                Some(m) => m,
                None => a.mode,
            },
            epoch: succ(a.epoch),
            version: succ(e.version),
        }
    }

    /// The state after a request for a change that changes nothing.
    pub open spec fn change_answered(self, wid: Seq<char>, f: Doc) -> State {
        if !self.has_attr(wid, "kernel_admin"@) {
            self.emitted(
                wid,
                change_refused(
                    f,
                    "component authority changes require the 'kernel_admin' attribute"@,
                ),
            )
        } else if !self.entities.contains_key(named_entity(f)) {
            self
        } else {
            self.emitted(
                wid,
                change_mismatched(
                    f,
                    value_epoch(f)->0,
                    self.entities[named_entity(f)].recorded(named_comp(f)).epoch,
                ),
            )
        }
    }
}

/// A planned change by its view.
pub open spec fn opt_change(o: Option<AuthorityChange>) -> Option<Change> {
    match o {
        Some(c) => Some(c@),
        None => None,
    }
}

/// Takes a request for a change of authority. What comes out goes to the log.
pub fn plan_authority_change(s: &mut ServerState, wid: &str, f: &Json) -> (r: Option<AuthorityChange>)
    ensures
        if old(s)@.changes_authority(wid@, f@) {
            &&& opt_change(r) == Some(old(s)@.change_of(f@))
            &&& final(s)@ == old(s)@
        } else {
            &&& r is None
            &&& final(s)@ == old(s)@.change_answered(wid@, f@)
        },
{
    let eid = f.str_or("entity", "");
    let comp = f.str_or("comp", "");
    if !worker_has_attr(s, wid, "kernel_admin") {
        let msg = refuse_change(
            f,
            "component authority changes require the 'kernel_admin' attribute",
        );
        emit(s, wid, msg.done());
        return None;
    }
    let mut next = match s.entities.get(eid) {
        Some(e) => e.dup(),
        None => return None,
    };
    let old_owner = component_authority_owner(&next, comp);
    let version: u64 = next.version.saturating_add(1);
    ensure_component_authority(&mut next, comp);
    let mut current: u64 = 1;
    let mut mode = AuthorityMode::ServerArbitrated;
    if let Some(ca) = next.authority.get(comp) {
        current = ca.epoch;
        mode = ca.mode;
    }
    if let Some(expected) = authority_epoch_from_value(f) {
        if expected != current {
            let mut reason = "authority_epoch fence mismatch: expected current ".to_owned();
            reason.append(u64_text(current).as_str());
            reason.append(", got ");
            reason.append(u64_text(expected).as_str());
            let msg = refuse_change(f, reason.as_str()).with(
                "current_authority_epoch",
                Json::u64(current),
            );
            emit(s, wid, msg.done());
            return None;
        }
    }
    if let Some(m) = f.get_str("mode") {
        if let Some(m) = AuthorityMode::from_wire_str(m) {
            mode = m;
        }
    }
    let owner: Option<String> = match f.get_str("owner") {
        Some(o) => if o.is_empty() {
            None
        } else {
            Some(o.to_owned())
        },
        None => None,
    };
    Some(
        AuthorityChange {
            eid: eid.to_owned(),
            comp: comp.to_owned(),
            owner,
            old_owner,
            mode,
            epoch: current.saturating_add(1),
            version,
        },
    )
}

/// The event of a change of authority.
pub open spec fn change_event(c: Change, writer: Seq<char>) -> Doc {
    Doc::Obj(
        map![
            "kind"@ => Doc::Str("component_authority"@),
            "entity"@ => Doc::Str(c.eid),
            "version"@ => Doc::Num(Num::Pos(c.version)),
            "writer"@ => Doc::Str(writer),
            "comp"@ => Doc::Str(c.comp),
            "owner"@ => opt_text_doc(c.owner),
            "authority_epoch"@ => Doc::Num(Num::Pos(c.epoch)),
            "mode"@ => Doc::Str(c.mode.wire())],
    )
}

/// The event of a change of authority.
pub fn authority_change_wal_event(c: &AuthorityChange, writer: &str) -> (r: Json)
    ensures
        r@ == change_event(c@, writer@),
{
    StrMap::new().with("kind", Json::str("component_authority")).with("entity", Json::str(c.eid.as_str())).with(
        "version",
        Json::u64(c.version),
    ).with("writer", Json::str(writer)).with("comp", Json::str(c.comp.as_str())).with(
        "owner",
        Json::opt_str(&c.owner),
    ).with("authority_epoch", Json::u64(c.epoch)).with("mode", Json::str(c.mode.as_wire_str())).done()
}

/// The entity after a change of authority.
pub open spec fn reassigned(e: Ent, c: Change) -> Ent {
    Ent {
        version: c.version,
        ..e.ensured(c.comp).with_auth(
            c.comp,
            Auth { owner: c.owner, epoch: c.epoch, mode: c.mode },
        )
    }
}

impl State {
    /// The state after a change of authority went to the log, or did not.
    pub open spec fn change_finished(self, wid: Seq<char>, f: Doc, c: Change, written: bool) -> State {
        if !written {
            self.emitted(
                wid,
                change_refused(
                    f,
                    "wal_persist_failed: component authority change not durably recorded"@,
                ),
            )
        } else if !self.entities.contains_key(c.eid) {
            self
        } else {
            let s = self.with_entity(c.eid, reassigned(self.entities[c.eid], c));
            let s2 = if c.old_owner is Some && c.old_owner != c.owner && s.workers.contains_key(
                c.old_owner->0,
            ) {
                s.revoked(c.old_owner->0, c.eid, c.comp)
            } else {
                s
            };
            let s3 = if c.owner is Some && s2.workers.contains_key(c.owner->0) {
                s2.granted(c.owner->0, c.eid, c.comp)
            } else {
                s2
            };
            match f.get("request_id"@) {
                Some(req) => s3.emitted(
                    wid,
                    Doc::Obj(
                        map![
                            "op"@ => Doc::Str("SetComponentAuthorityResponse"@),
                            "request_id"@ => req,
                            "entity"@ => Doc::Str(c.eid),
                            "comp"@ => Doc::Str(c.comp),
                            "success"@ => Doc::Bool(true),
                            "owner"@ => opt_text_doc(c.owner),
                            "authority_epoch"@ => Doc::Num(Num::Pos(c.epoch)),
                            "mode"@ => Doc::Str(c.mode.wire())],
                    ),
                ),
                None => s3,
            }
        }
    }
}

/// Makes a change of authority that is on the log, and answers the request.
pub fn finish_authority_change(
    s: &mut ServerState,
    wid: &str,
    f: &Json,
    c: &AuthorityChange,
    written: bool,
)
    ensures
        final(s)@ == old(s)@.change_finished(wid@, f@, c@, written),
{
    if !written {
        let msg = refuse_change(
            f,
            "wal_persist_failed: component authority change not durably recorded",
        );
        emit(s, wid, msg.done());
        return;
    }
    let eid = c.eid.as_str();
    let comp = c.comp.as_str();
    match s.entities.remove(eid) {
        None => return,
        Some(mut e) => {
            ensure_component_authority(&mut e, comp);
            e.authority.insert(
                comp,
                ComponentAuthority { owner: dup_opt(&c.owner), epoch: c.epoch, mode: c.mode },
            );
            e.version = c.version;
            s.entities.insert(eid, e);
        },
    }
    if let Some(o) = &c.old_owner {
        if !opt_is(&c.owner, o.as_str()) && s.workers.contains_key(o.as_str()) {
            revoke_authority(s, o.as_str(), eid, comp);
        }
    }
    if let Some(o) = &c.owner {
        if s.workers.contains_key(o.as_str()) {
            grant_authority(s, o.as_str(), eid, comp);
        }
    }
    if let Some(req) = f.get("request_id") {
        let msg = StrMap::new().with("op", Json::str("SetComponentAuthorityResponse")).with(
            "request_id",
            req.dup(),
        ).with("entity", Json::str(eid)).with("comp", Json::str(comp)).with("success", Json::Bool(true)).with(
            "owner",
            Json::opt_str(&c.owner),
        ).with("authority_epoch", Json::u64(c.epoch)).with("mode", Json::str(c.mode.as_wire_str())).done();
        emit(s, wid, msg);
    }
}

/// An epoch never goes back: an accepted change raises it, until the highest there
/// is.
pub proof fn law_change_raises_the_epoch(s: State, f: Doc)
    ensures
        s.change_of(f).epoch >= s.entities[named_entity(f)].recorded(named_comp(f)).epoch,
        s.entities[named_entity(f)].recorded(named_comp(f)).epoch < u64::MAX ==> s.change_of(f).epoch
            > s.entities[named_entity(f)].recorded(named_comp(f)).epoch,
{
}

impl State {
    /// What the check of a component that comes or goes finds: whether it may.
    pub open spec fn may_alter(self, wid: Seq<char>, f: Doc) -> bool {
        let eid = named_entity(f);
        let comp = named_comp(f);
        &&& self.entities.contains_key(eid)
        &&& self.write_refusal(wid, eid, comp) is None
        &&& !(comp == "acl"@ && !self.has_attr(wid, "acl_admin"@))
        &&& !self.reserved_from(wid, comp)
        &&& !self.is_stale(wid, eid, comp, value_epoch(f))
    }

    /// The state after a component was refused to come or go.
    pub open spec fn alter_refused(self, wid: Seq<char>, f: Doc) -> State {
        let eid = named_entity(f);
        let comp = named_comp(f);
        if !self.entities.contains_key(eid) {
            self
        } else if self.write_refusal(wid, eid, comp) is Some {
            self.emitted(wid, update_rejected(eid, comp, self.write_refusal(wid, eid, comp)->0))
        } else if comp == "acl"@ && !self.has_attr(wid, "acl_admin"@) {
            self.emitted(
                wid,
                update_rejected(eid, comp, "acl requires the 'acl_admin' attribute"@),
            )
        } else if self.reserved_from(wid, comp) {
            self.emitted(wid, update_rejected(eid, comp, reserved_reason()))
        } else {
            self.emitted(
                wid,
                stale_rejected(
                    eid,
                    comp,
                    self.claimed_epoch(wid, eid, comp, value_epoch(f))->0,
                    self.entities[eid].epoch(comp),
                ),
            )
        }
    }
}

fn check_alter(s: &mut ServerState, wid: &str, f: &Json) -> (r: bool)
    ensures
        r == old(s)@.may_alter(wid@, f@),
        final(s)@ == if r {
            old(s)@
        } else {
            old(s)@.alter_refused(wid@, f@)
        },
{
    let eid = f.str_or("entity", "");
    let comp = f.str_or("comp", "");
    if !s.entities.contains_key(eid) {
        return false;
    }
    if let Err(reason) = authoritative_component_writer(s, wid, eid, comp) {
        emit(s, wid, update_rejected_json(eid, comp, reason.as_str()));
        return false;
    }
    if str_eq(comp, "acl") && !worker_has_attr(s, wid, "acl_admin") {
        emit(s, wid, update_rejected_json(eid, comp, "acl requires the 'acl_admin' attribute"));
        return false;
    }
    if reject_kernel_reserved_write(s, wid, eid, comp) {
        return false;
    }
    if reject_stale_authority_epoch_val(s, wid, eid, comp, authority_epoch_from_value(f)) {
        return false;
    }
    true
}

/// The event that a component came.
pub open spec fn add_event(f: Doc, version: u64, writer: Seq<char>) -> Doc {
    Doc::Obj(
        map![
            "kind"@ => Doc::Str("component_add"@),
            "entity"@ => Doc::Str(named_entity(f)),
            "version"@ => Doc::Num(Num::Pos(version)),
            "writer"@ => Doc::Str(writer),
            "comp"@ => Doc::Str(named_comp(f)),
            "value"@ => or_null(f.get("value"@))],
    )
}

/// The event that a component went.
pub open spec fn remove_event(f: Doc, version: u64, writer: Seq<char>) -> Doc {
    Doc::Obj(
        map![
            "kind"@ => Doc::Str("component_remove"@),
            "entity"@ => Doc::Str(named_entity(f)),
            "version"@ => Doc::Num(Num::Pos(version)),
            "writer"@ => Doc::Str(writer),
            "comp"@ => Doc::Str(named_comp(f))],
    )
}

impl State {
    /// Whether a component comes: it may, and is not there.
    pub open spec fn adds_component(self, wid: Seq<char>, f: Doc) -> bool {
        self.may_alter(wid, f) && !self.entities[named_entity(f)].components.contains_key(
            named_comp(f),
        )
    }

    /// Whether a component goes: it may, and is there.
    pub open spec fn removes_component(self, wid: Seq<char>, f: Doc) -> bool {
        self.may_alter(wid, f) && self.entities[named_entity(f)].components.contains_key(
            named_comp(f),
        )
    }

    /// The state after a component came, or did not.
    pub open spec fn component_added(self, wid: Seq<char>, f: Doc, written: bool) -> State {
        let eid = named_entity(f);
        let comp = named_comp(f);
        if !written {
            self.emitted(
                wid,
                update_rejected(
                    eid,
                    comp,
                    "wal_persist_failed: component add not durably recorded"@,
                ),
            )
        } else if !self.entities.contains_key(eid) {
            self
        } else {
            let e = self.entities[eid];
            let v = or_null(f.get("value"@));
            self.with_entity(
                eid,
                Ent {
                    version: succ(e.version),
                    ..(Ent { components: e.components.insert(comp, v), ..e }).ensured(comp)
                },
            ).viewers_told(
                eid,
                Doc::Obj(
                    map![
                        "op"@ => Doc::Str("AddComponent"@),
                        "entity"@ => Doc::Str(eid),
                        "comp"@ => Doc::Str(comp),
                        "value"@ => v],
                ),
            )
        }
    }

    /// The state after a component went, or did not.
    pub open spec fn component_removed(self, wid: Seq<char>, f: Doc, written: bool) -> State {
        let eid = named_entity(f);
        let comp = named_comp(f);
        if !written {
            self.emitted(
                wid,
                update_rejected(
                    eid,
                    comp,
                    "wal_persist_failed: component remove not durably recorded"@,
                ),
            )
        } else if !self.entities.contains_key(eid) {
            self
        } else {
            let e = self.entities[eid];
            self.with_entity(
                eid,
                Ent { components: e.components.remove(comp), version: succ(e.version), ..e },
            ).viewers_told(eid, removed_msg(eid, comp))
        }
    }
}

/// The notice that a component went.
pub open spec fn removed_msg(eid: Seq<char>, comp: Seq<char>) -> Doc {
    Doc::Obj(
        map![
            "op"@ => Doc::Str("RemoveComponent"@),
            "entity"@ => Doc::Str(eid),
            "comp"@ => Doc::Str(comp)],
    )
}

/// The notice that a component went.
pub fn removed_msg_json(eid: &str, comp: &str) -> (r: Json)
    ensures
        r@ == removed_msg(eid@, comp@),
{
    StrMap::new().with("op", Json::str("RemoveComponent")).with("entity", Json::str(eid)).with(
        "comp",
        Json::str(comp),
    ).done()
}

/// Takes a request for a new component. What comes out goes to the log.
pub fn plan_add_component(s: &mut ServerState, wid: &str, f: &Json) -> (r: Option<Json>)
    ensures
        match r {
            Some(ev) => {
                &&& old(s)@.adds_component(wid@, f@)
                &&& final(s)@ == old(s)@
                &&& ev@ == add_event(
                    f@,
                    succ(old(s)@.entities[named_entity(f@)].version),
                    wid@,
                )
            },
            None => {
                &&& !old(s)@.adds_component(wid@, f@)
                &&& final(s)@ == if old(s)@.may_alter(wid@, f@) {
                    old(s)@
                } else {
                    old(s)@.alter_refused(wid@, f@)
                }
            },
        },
{
    if !check_alter(s, wid, f) {
        return None;
    }
    let eid = f.str_or("entity", "");
    let comp = f.str_or("comp", "");
    let mut version: u64 = 1;
    if let Some(e) = s.entities.get(eid) {
        if e.components.contains_key(comp) {
            return None;
        }
        version = e.version.saturating_add(1);
    }
    Some(
        StrMap::new().with("kind", Json::str("component_add")).with("entity", Json::str(eid)).with(
            "version",
            Json::u64(version),
        ).with("writer", Json::str(wid)).with("comp", Json::str(comp)).with(
            "value",
            f.member("value"),
        ).done(),
    )
}

/// Takes a request for a component to go. What comes out goes to the log.
pub fn plan_remove_component(s: &mut ServerState, wid: &str, f: &Json) -> (r: Option<Json>)
    ensures
        match r {
            Some(ev) => {
                &&& old(s)@.removes_component(wid@, f@)
                &&& final(s)@ == old(s)@
                &&& ev@ == remove_event(
                    f@,
                    succ(old(s)@.entities[named_entity(f@)].version),
                    wid@,
                )
            },
            None => {
                &&& !old(s)@.removes_component(wid@, f@)
                &&& final(s)@ == if old(s)@.may_alter(wid@, f@) {
                    old(s)@
                } else {
                    old(s)@.alter_refused(wid@, f@)
                }
            },
        },
{
    if !check_alter(s, wid, f) {
        return None;
    }
    let eid = f.str_or("entity", "");
    let comp = f.str_or("comp", "");
    let mut version: u64 = 1;
    if let Some(e) = s.entities.get(eid) {
        if !e.components.contains_key(comp) {
            return None;
        }
        version = e.version.saturating_add(1);
    }
    Some(
        StrMap::new().with("kind", Json::str("component_remove")).with("entity", Json::str(eid)).with(
            "version",
            Json::u64(version),
        ).with("writer", Json::str(wid)).with("comp", Json::str(comp)).done(),
    )
}

/// Adds a component that is on the log.
pub fn finish_add_component(s: &mut ServerState, wid: &str, f: &Json, written: bool)
    ensures
        final(s)@ == old(s)@.component_added(wid@, f@, written),
{
    let eid = f.str_or("entity", "");
    let comp = f.str_or("comp", "");
    if !written {
        emit(
            s,
            wid,
            update_rejected_json(
                eid,
                comp,
                "wal_persist_failed: component add not durably recorded",
            ),
        );
        return;
    }
    match s.entities.remove(eid) {
        None => return,
        Some(mut e) => {
            e.components.insert(comp, f.member("value"));
            ensure_component_authority(&mut e, comp);
            e.version = e.version.saturating_add(1);
            s.entities.insert(eid, e);
        },
    }
    let msg = StrMap::new().with("op", Json::str("AddComponent")).with("entity", Json::str(eid)).with(
        "comp",
        Json::str(comp),
    ).with("value", f.member("value")).done();
    tell_viewers(s, eid, &msg);
}

/// Removes a component whose removal is on the log.
pub fn finish_remove_component(s: &mut ServerState, wid: &str, f: &Json, written: bool)
    ensures
        final(s)@ == old(s)@.component_removed(wid@, f@, written),
{
    let eid = f.str_or("entity", "");
    let comp = f.str_or("comp", "");
    if !written {
        emit(
            s,
            wid,
            update_rejected_json(
                eid,
                comp,
                "wal_persist_failed: component remove not durably recorded",
            ),
        );
        return;
    }
    match s.entities.remove(eid) {
        None => return,
        Some(mut e) => {
            e.components.remove(comp);
            e.version = e.version.saturating_add(1);
            s.entities.insert(eid, e);
        },
    }
    tell_viewers(s, eid, &removed_msg_json(eid, comp));
}

}
