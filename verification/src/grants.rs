//! Granting and checking the authority over components.

use vstd::prelude::*;
use vstd::string::*;
use crate::authority::physics_island_component_names;
use crate::doc::{Doc, Json, Num};
use crate::entity::{
    acl_attr, acl_client_write_attr, component_authority_epoch, component_authority_mode,
    component_authority_owner, ensure_component_authority, is_platform_reserved_component,
    platform_reserved, Auth, AuthorityMode, ComponentAuthority, Ent,
};
use crate::json::text_or;
use crate::order::sorted;
use crate::state::{emit, worker_has_attr, Peer, ServerState, State};
use crate::strmap::{texts, StrMap};
use crate::text::{decimal, str_eq, u64_text};

verus! {

broadcast use {crate::doc::group_json, crate::strmap::group_map};

/// The key of a component of an entity.
pub open spec fn component_key(eid: Seq<char>, comp: Seq<char>) -> Seq<char> {
    eid + ":"@ + comp
}

/// The key of a component of an entity.
pub fn authority_key(eid: &str, comp: &str) -> (r: String)
    ensures
        r@ == component_key(eid@, comp@),
{
    let mut s = eid.to_owned();
    s.append(":");
    s.append(comp);
    s
}

/// The notice that a peer has gained or lost a component.
pub open spec fn authority_change(
    eid: Seq<char>,
    comp: Seq<char>,
    authoritative: bool,
    epoch: u64,
    mode: Seq<char>,
) -> Doc {
    Doc::Obj(
        map![
            "op"@ => Doc::Str("AuthorityChange"@),
            "entity"@ => Doc::Str(eid),
            "comp"@ => Doc::Str(comp),
            "authoritative"@ => Doc::Bool(authoritative),
            "authority_epoch"@ => Doc::Num(Num::Pos(epoch)),
            "mode"@ => Doc::Str(mode)],
    )
}

fn authority_change_json(eid: &str, comp: &str, authoritative: bool, epoch: u64, mode: &str) -> (r:
    Json)
    ensures
        r@ == authority_change(eid@, comp@, authoritative, epoch, mode@),
{
    StrMap::new().with("op", Json::str("AuthorityChange")).with("entity", Json::str(eid)).with(
        "comp",
        Json::str(comp),
    ).with("authoritative", Json::Bool(authoritative)).with("authority_epoch", Json::u64(epoch)).with(
        "mode",
        Json::str(mode),
    ).done()
}

/// A rejection of a write, and why.
pub open spec fn update_rejected(eid: Seq<char>, comp: Seq<char>, reason: Seq<char>) -> Doc {
    Doc::Obj(
        map![
            "op"@ => Doc::Str("UpdateRejected"@),
            "entity"@ => Doc::Str(eid),
            "comp"@ => Doc::Str(comp),
            "reason"@ => Doc::Str(reason)],
    )
}

/// A rejection of a write, and why.
pub fn update_rejected_json(eid: &str, comp: &str, reason: &str) -> (r: Json)
    ensures
        r@ == update_rejected(eid@, comp@, reason@),
{
    StrMap::new().with("op", Json::str("UpdateRejected")).with("entity", Json::str(eid)).with(
        "comp",
        Json::str(comp),
    ).with("reason", Json::str(reason)).done()
}

impl State {
    /// The state with a peer's record of an epoch set.
    pub open spec fn epoch_cached(self, wid: Seq<char>, key: Seq<char>, epoch: u64) -> State {
        if self.workers.contains_key(wid) {
            let w = self.workers[wid];
            State {
                workers: self.workers.insert(
                    wid,
                    Peer { authority_epochs: w.authority_epochs.insert(key, epoch), ..w },
                ),
                ..self
            }
        } else {
            self
        }
    }

    /// The state with a peer's record of an epoch dropped.
    pub open spec fn epoch_dropped(self, wid: Seq<char>, key: Seq<char>) -> State {
        if self.workers.contains_key(wid) {
            let w = self.workers[wid];
            State {
                workers: self.workers.insert(
                    wid,
                    Peer { authority_epochs: w.authority_epochs.remove(key), ..w },
                ),
                ..self
            }
        } else {
            self
        }
    }

    /// The state with an entity replaced.
    pub open spec fn with_entity(self, eid: Seq<char>, e: Ent) -> State {
        State { entities: self.entities.insert(eid, e), ..self }
    }

    /// The state after a peer was made the owner of a component, and told so.
    pub open spec fn granted(self, wid: Seq<char>, eid: Seq<char>, comp: Seq<char>) -> State {
        if self.entities.contains_key(eid) {
            let e = self.entities[eid].ensured(comp);
            let a = e.authority[comp];
            self.with_entity(eid, e.with_auth(comp, Auth { owner: Some(wid), ..a })).epoch_cached(
                wid,
                component_key(eid, comp),
                a.epoch,
            ).emitted(wid, authority_change(eid, comp, true, a.epoch, a.mode.wire()))
        } else {
            self
        }
    }

    /// The state after a component was taken from a peer, and the peer told so.
    pub open spec fn revoked(self, wid: Seq<char>, eid: Seq<char>, comp: Seq<char>) -> State {
        if self.entities.contains_key(eid) {
            let e = self.entities[eid].ensured(comp);
            let a = e.authority[comp];
            let owner = if a.owner == Some(wid) {
                None
            } else {
                a.owner
            };
            self.with_entity(eid, e.with_auth(comp, Auth { owner, ..a })).epoch_dropped(
                wid,
                component_key(eid, comp),
            ).emitted(wid, authority_change(eid, comp, false, a.epoch, a.mode.wire()))
        } else {
            self.epoch_dropped(wid, component_key(eid, comp)).emitted(
                wid,
                authority_change(eid, comp, false, 0, "server_arbitrated"@),
            )
        }
    }

    /// The state after a peer was made the owner of several components.
    pub open spec fn all_granted(self, wid: Seq<char>, eid: Seq<char>, comps: Seq<Seq<char>>) -> State
        decreases comps.len(),
    {
        if comps.len() == 0 {
            self
        } else {
            self.all_granted(wid, eid, comps.drop_last()).granted(wid, eid, comps.last())
        }
    }

    /// The state after several components were taken from a peer.
    pub open spec fn all_revoked(self, wid: Seq<char>, eid: Seq<char>, comps: Seq<Seq<char>>) -> State
        decreases comps.len(),
    {
        if comps.len() == 0 {
            self
        } else {
            self.all_revoked(wid, eid, comps.drop_last()).revoked(wid, eid, comps.last())
        }
    }
}

fn cache_epoch(s: &mut ServerState, wid: &str, key: &str, epoch: u64)
    ensures
        final(s)@ == old(s)@.epoch_cached(wid@, key@, epoch),
{
    if let Some(mut w) = s.workers.remove(wid) {
        w.authority_epochs.insert(key, epoch);
        s.workers.insert(wid, w);
    }
}

/// Drops a peer's record of an epoch.
pub fn drop_epoch(s: &mut ServerState, wid: &str, key: &str)
    ensures
        final(s)@ == old(s)@.epoch_dropped(wid@, key@),
{
    if let Some(mut w) = s.workers.remove(wid) {
        w.authority_epochs.remove(key);
        s.workers.insert(wid, w);
    }
}

/// Makes a peer the owner of a component, and tells it so.
pub fn grant_authority(s: &mut ServerState, wid: &str, eid: &str, comp: &str)
    ensures
        final(s)@ == old(s)@.granted(wid@, eid@, comp@),
{
    let mut epoch: u64 = 1;
    let mut mode = AuthorityMode::ServerArbitrated;
    match s.entities.remove(eid) {
        None => return,
        Some(mut e) => {
            ensure_component_authority(&mut e, comp);
            if let Some(ca) = e.authority.remove(comp) {
                epoch = ca.epoch;
                mode = ca.mode;
                e.authority.insert(
                    comp,
                    ComponentAuthority { owner: Some(wid.to_owned()), epoch: ca.epoch, mode: ca.mode },
                );
            }
            s.entities.insert(eid, e);
        },
    }
    let key = authority_key(eid, comp);
    cache_epoch(s, wid, key.as_str(), epoch);
    emit(s, wid, authority_change_json(eid, comp, true, epoch, mode.as_wire_str()));
}

/// Takes a component from a peer, and tells it so.
pub fn revoke_authority(s: &mut ServerState, wid: &str, eid: &str, comp: &str)
    ensures
        final(s)@ == old(s)@.revoked(wid@, eid@, comp@),
{
    let mut epoch: u64 = 0;
    let mut mode = AuthorityMode::ServerArbitrated;
    if let Some(mut e) = s.entities.remove(eid) {
        ensure_component_authority(&mut e, comp);
        if let Some(ca) = e.authority.remove(comp) {
            epoch = ca.epoch;
            mode = ca.mode;
            let mine: bool = crate::entity::opt_is(&ca.owner, wid);
            let owner: Option<String> = if mine { None } else { ca.owner };
            e.authority.insert(comp, ComponentAuthority { owner, epoch: ca.epoch, mode: ca.mode });
        }
        s.entities.insert(eid, e);
    }
    let key = authority_key(eid, comp);
    drop_epoch(s, wid, key.as_str());
    emit(s, wid, authority_change_json(eid, comp, false, epoch, mode.as_wire_str()));
}

/// Makes a peer the owner of several components.
pub fn grant_all(s: &mut ServerState, wid: &str, eid: &str, comps: &Vec<String>)
    ensures
        final(s)@ == old(s)@.all_granted(wid@, eid@, texts(comps@)),
{
    let ghost before = s@;
    let ghost names = texts(comps@);
    let mut i: usize = 0;
    proof {
        assert(names.take(0) =~= Seq::empty());
    }
    while i < comps.len()
        invariant
            i <= comps.len(),
            names == texts(comps@),
            s@ == before.all_granted(wid@, eid@, names.take(i as int)),
        decreases comps.len() - i,
    {
        proof {
            assert(names.take(i + 1).drop_last() =~= names.take(i as int));
            assert(names.take(i + 1).last() == comps@[i as int]@);
        }
        grant_authority(s, wid, eid, comps[i].as_str());
        i = i + 1;
    }
    proof {
        assert(names.take(i as int) =~= names);
    }
}

/// Takes several components from a peer.
pub fn revoke_all(s: &mut ServerState, wid: &str, eid: &str, comps: &Vec<String>)
    ensures
        final(s)@ == old(s)@.all_revoked(wid@, eid@, texts(comps@)),
{
    let ghost before = s@;
    let ghost names = texts(comps@);
    let mut i: usize = 0;
    proof {
        assert(names.take(0) =~= Seq::empty());
    }
    while i < comps.len()
        invariant
            i <= comps.len(),
            names == texts(comps@),
            s@ == before.all_revoked(wid@, eid@, names.take(i as int)),
        decreases comps.len() - i,
    {
        proof {
            assert(names.take(i + 1).drop_last() =~= names.take(i as int));
            assert(names.take(i + 1).last() == comps@[i as int]@);
        }
        revoke_authority(s, wid, eid, comps[i].as_str());
        i = i + 1;
    }
    proof {
        assert(names.take(i as int) =~= names);
    }
}

impl Ent {
    /// Whether the holder of the region gets a component of the entity with it: a
    /// physics component that no client may write and that nobody else owns.
    pub open spec fn comes_with_region(self, wid: Seq<char>, comp: Seq<char>) -> bool {
        &&& self.mode(comp) == AuthorityMode::ServerPhysicsIsland
        &&& acl_attr(self.components, "client_write"@, comp) is None
        &&& self.owner(comp) is None || self.owner(comp) == Some(wid)
    }
}

/// The texts of a list that satisfy a predicate on an entity.
pub open spec fn regional(e: Ent, wid: Seq<char>, names: Seq<Seq<char>>) -> Seq<Seq<char>>
    decreases names.len(),
{
    if names.len() == 0 {
        Seq::empty()
    } else {
        let before = regional(e, wid, names.drop_last());
        if e.comes_with_region(wid, names.last()) {
            before.push(names.last())
        } else {
            before
        }
    }
}

impl State {
    /// The components of an entity that a peer gets as the holder of its region.
    pub open spec fn regional_grants(self, wid: Seq<char>, eid: Seq<char>) -> Seq<Seq<char>> {
        if self.entities.contains_key(eid) && self.region_worker.contains_key(
            self.entities[eid].region,
        ) && self.region_worker[self.entities[eid].region] == wid {
            regional(self.entities[eid], wid, sorted(self.entities[eid].island()))
        } else {
            Seq::empty()
        }
    }

    /// The state after a peer was made the owner of what comes with its region.
    pub open spec fn regionally_granted(self, wid: Seq<char>, eid: Seq<char>) -> State {
        self.all_granted(wid, eid, self.regional_grants(wid, eid))
    }
}

/// The components of an entity that a peer gets as the holder of its region.
pub fn region_physics_island_grants(s: &ServerState, wid: &str, eid: &str) -> (r: Vec<String>)
    ensures
        texts(r@) == s@.regional_grants(wid@, eid@),
{
    let mut out: Vec<String> = Vec::new();
    proof {
        assert(texts(out@) =~= Seq::empty());
    }
    let e = match s.entities.get(eid) {
        Some(e) => e,
        None => return out,
    };
    match s.region_worker.get(e.region.as_str()) {
        Some(w) => if !str_eq(w.as_str(), wid) {
            return out;
        },
        None => return out,
    }
    let comps = physics_island_component_names(&e.components, &e.authority);
    let ghost names = texts(comps@);
    let mut i: usize = 0;
    proof {
        assert(names.take(0) =~= Seq::empty());
    }
    while i < comps.len()
        invariant
            i <= comps.len(),
            names == texts(comps@),
            texts(out@) == regional(e@, wid@, names.take(i as int)),
        decreases comps.len() - i,
    {
        let comp = comps[i].as_str();
        proof {
            assert(names.take(i + 1).drop_last() =~= names.take(i as int));
            assert(names.take(i + 1).last() == comp@);
        }
        let ghost before = texts(out@);
        let free: bool = match component_authority_owner(e, comp) {
            Some(o) => str_eq(o.as_str(), wid),
            None => true,
        };
        if component_authority_mode(e, comp) == AuthorityMode::ServerPhysicsIsland
            && acl_client_write_attr(e, comp).is_none() && free {
            out.push(comps[i].clone());
            proof {
                assert(texts(out@) =~= before.push(comp@));
            }
        }
        i = i + 1;
    }
    proof {
        assert(names.take(i as int) =~= names);
    }
    out
}

/// Makes a peer the owner of what comes with its region.
pub fn grant_region_physics_island_authority(s: &mut ServerState, wid: &str, eid: &str)
    ensures
        final(s)@ == old(s)@.regionally_granted(wid@, eid@),
{
    let comps = region_physics_island_grants(s, wid, eid);
    grant_all(s, wid, eid, &comps);
}

impl State {
    /// The peer that holds the region of an entity.
    pub open spec fn holder(self, eid: Seq<char>) -> Option<Seq<char>> {
        if self.entities.contains_key(eid) && self.region_worker.contains_key(
            self.entities[eid].region,
        ) {
            Some(self.region_worker[self.entities[eid].region])
        } else {
            None
        }
    }

    /// Why a peer may not act for an entity; nothing where it may.
    pub open spec fn entity_refusal(self, wid: Seq<char>, eid: Seq<char>) -> Option<Seq<char>> {
        if !self.entities.contains_key(eid) {
            Some("entity not found"@)
        } else if self.holder(eid) == Some(wid) || self.has_attr(wid, "kernel_admin"@) {
            None
        } else {
            Some("not authoritative; owner="@ + text_or(self.holder(eid), ""@))
        }
    }

    /// Why a peer may not write a component; nothing where it may. The kernel's
    /// administrator may write all; a client what the entity lets it write; the
    /// owner what it owns; and the holder of the region what nobody owns.
    pub open spec fn write_refusal(self, wid: Seq<char>, eid: Seq<char>, comp: Seq<char>) -> Option<
        Seq<char>,
    > {
        if self.has_attr(wid, "kernel_admin"@) {
            None
        } else if !self.entities.contains_key(eid) {
            Some("entity not found"@)
        } else {
            let e = self.entities[eid];
            let attr = acl_attr(e.components, "client_write"@, comp);
            if e.mode(comp) == AuthorityMode::ClientForwardSparse && attr is Some && self.has_attr(
                wid,
                attr->0,
            ) {
                None
            } else {
                match e.owner(comp) {
                    Some(o) => if o == wid {
                        None
                    } else {
                        Some("not authoritative; owner="@ + o)
                    },
                    None => self.entity_refusal(wid, eid),
                }
            }
        }
    }
}

/// A refusal by its view.
pub open spec fn refusal(r: Result<(), String>) -> Option<Seq<char>> {
    match r {
        Ok(_) => None,
        Err(e) => Some(e@),
    }
}

/// Whether a peer may act for an entity.
pub fn authoritative_entity_owner(s: &ServerState, wid: &str, eid: &str) -> (r: Result<(), String>)
    ensures
        refusal(r) == s@.entity_refusal(wid@, eid@),
{
    let e = match s.entities.get(eid) {
        Some(e) => e,
        None => return Err("entity not found".to_owned()),
    };
    let owner = s.region_worker.get(e.region.as_str());
    let mine: bool = match owner {
        Some(o) => str_eq(o.as_str(), wid),
        None => false,
    };
    if mine || worker_has_attr(s, wid, "kernel_admin") {
        return Ok(());
    }
    let mut msg = "not authoritative; owner=".to_owned();
    match owner {
        Some(o) => msg.append(o.as_str()),
        None => msg.append(""),
    }
    Err(msg)
}

/// Whether a peer may write a component.
pub fn authoritative_component_writer(s: &ServerState, wid: &str, eid: &str, comp: &str) -> (r:
    Result<(), String>)
    ensures
        refusal(r) == s@.write_refusal(wid@, eid@, comp@),
{
    if worker_has_attr(s, wid, "kernel_admin") {
        return Ok(());
    }
    let e = match s.entities.get(eid) {
        Some(e) => e,
        None => return Err("entity not found".to_owned()),
    };
    if component_authority_mode(e, comp) == AuthorityMode::ClientForwardSparse {
        if let Some(attr) = acl_client_write_attr(e, comp) {
            if worker_has_attr(s, wid, attr.as_str()) {
                return Ok(());
            }
        }
    }
    if let Some(owner) = component_authority_owner(e, comp) {
        if str_eq(owner.as_str(), wid) {
            return Ok(());
        }
        let mut msg = "not authoritative; owner=".to_owned();
        msg.append(owner.as_str());
        return Err(msg);
    }
    authoritative_entity_owner(s, wid, eid)
}

impl State {
    /// Whether a write is refused because the platform keeps the component.
    pub open spec fn reserved_from(self, wid: Seq<char>, comp: Seq<char>) -> bool {
        platform_reserved(comp) && !self.has_attr(wid, "kernel_admin"@)
    }

    /// The epoch that a peer acts under: the one it states, or else the one it was
    /// last granted.
    pub open spec fn claimed_epoch(
        self,
        wid: Seq<char>,
        eid: Seq<char>,
        comp: Seq<char>,
        supplied: Option<u64>,
    ) -> Option<u64> {
        match supplied {
            Some(n) => Some(n),
            None => if self.workers.contains_key(wid)
                && self.workers[wid].authority_epochs.contains_key(component_key(eid, comp)) {
                Some(self.workers[wid].authority_epochs[component_key(eid, comp)])
            } else {
                None
            },
        }
    }

    /// Whether a peer acts under an epoch that is not the current one.
    pub open spec fn is_stale(
        self,
        wid: Seq<char>,
        eid: Seq<char>,
        comp: Seq<char>,
        supplied: Option<u64>,
    ) -> bool {
        &&& self.entities.contains_key(eid)
        &&& self.claimed_epoch(wid, eid, comp, supplied) is Some
        &&& self.claimed_epoch(wid, eid, comp, supplied)->0 != self.entities[eid].epoch(comp)
    }
}

/// What a peer is told whose epoch is not the current one.
pub open spec fn stale_rejected(eid: Seq<char>, comp: Seq<char>, epoch: u64, current: u64) -> Doc {
    Doc::Obj(
        map![
            "op"@ => Doc::Str("UpdateRejected"@),
            "entity"@ => Doc::Str(eid),
            "comp"@ => Doc::Str(comp),
            "reason"@ => Doc::Str("stale authority epoch "@ + decimal(epoch as nat) + "; current="@
                + decimal(current as nat)),
            "authority_epoch"@ => Doc::Num(Num::Pos(current))],
    )
}

/// The reason that a component is kept by the platform.
pub open spec fn reserved_reason() -> Seq<char> {
    "platform-reserved components require the 'kernel_admin' attribute"@
}

/// Refuses a write to a component that the platform keeps.
pub fn reject_kernel_reserved_write(s: &mut ServerState, wid: &str, eid: &str, comp: &str) -> (r:
    bool)
    ensures
        r == old(s)@.reserved_from(wid@, comp@),
        final(s)@ == if r {
            old(s)@.emitted(wid@, update_rejected(eid@, comp@, reserved_reason()))
        } else {
            old(s)@
        },
{
    if is_platform_reserved_component(comp) && !worker_has_attr(s, wid, "kernel_admin") {
        emit(
            s,
            wid,
            update_rejected_json(
                eid,
                comp,
                "platform-reserved components require the 'kernel_admin' attribute",
            ),
        );
        true
    } else {
        false
    }
}

/// Refuses an act under an epoch that is not the current one.
pub fn reject_stale_authority_epoch_val(
    s: &mut ServerState,
    wid: &str,
    eid: &str,
    comp: &str,
    supplied: Option<u64>,
) -> (r: bool)
    ensures
        r == old(s)@.is_stale(wid@, eid@, comp@, supplied),
        final(s)@ == if r {
            old(s)@.emitted(
                wid@,
                stale_rejected(
                    eid@,
                    comp@,
                    old(s)@.claimed_epoch(wid@, eid@, comp@, supplied)->0,
                    old(s)@.entities[eid@].epoch(comp@),
                ),
            )
        } else {
            old(s)@
        },
{
    let current: u64 = match s.entities.get(eid) {
        Some(e) => component_authority_epoch(e, comp),
        None => return false,
    };
    let key = authority_key(eid, comp);
    let candidate: Option<u64> = match supplied {
        Some(n) => Some(n),
        None => match s.workers.get(wid) {
            Some(w) => match w.authority_epochs.get(key.as_str()) {
                Some(n) => Some(*n),
                None => None,
            },
            None => None,
        },
    };
    match candidate {
        Some(epoch) => {
            if epoch == current {
                return false;
            }
            let mut reason = "stale authority epoch ".to_owned();
            reason.append(u64_text(epoch).as_str());
            reason.append("; current=");
            reason.append(u64_text(current).as_str());
            let msg = StrMap::new().with("op", Json::str("UpdateRejected")).with(
                "entity",
                Json::str(eid),
            ).with("comp", Json::str(comp)).with("reason", Json::Str(reason)).with(
                "authority_epoch",
                Json::u64(current),
            ).done();
            emit(s, wid, msg);
            true
        },
        None => false,
    }
}

/// The fence holds: once the epoch of a component has moved on, a write under the
/// old epoch is stale, whoever sends it.
pub proof fn law_old_epoch_is_fenced(
    s: State,
    wid: Seq<char>,
    eid: Seq<char>,
    comp: Seq<char>,
    old_epoch: u64,
)
    requires
        s.entities.contains_key(eid),
        s.entities[eid].epoch(comp) > old_epoch,
    ensures
        s.is_stale(wid, eid, comp, Some(old_epoch)),
{
}

/// A mirror of a neighbour's entity grants nothing: no peer may write what is not
/// an entity of this broker, but for the kernel's administrator.
pub proof fn law_only_entities_are_written(s: State, wid: Seq<char>, eid: Seq<char>, comp: Seq<char>)
    requires
        !s.entities.contains_key(eid),
        !s.has_attr(wid, "kernel_admin"@),
    ensures
        s.write_refusal(wid, eid, comp) == Some("entity not found"@),
        s.granted(wid, eid, comp) == s,
{
}

/// A component has one writer: of peers that are no administrators, at most one may write
/// it, unless the entity leaves the component to its clients.
pub proof fn law_single_writer(
    s: State,
    a: Seq<char>,
    b: Seq<char>,
    eid: Seq<char>,
    comp: Seq<char>,
)
    requires
        s.entities.contains_key(eid),
        s.entities[eid].mode(comp) != AuthorityMode::ClientForwardSparse,
        !s.has_attr(a, "kernel_admin"@),
        !s.has_attr(b, "kernel_admin"@),
        s.write_refusal(a, eid, comp) is None,
        s.write_refusal(b, eid, comp) is None,
    ensures
        a == b,
{
}

}
