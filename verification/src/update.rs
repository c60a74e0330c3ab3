//! Component writes: checked, put on the log, and applied once they are durable.

use vstd::prelude::*;
use vstd::string::*;
use crate::authority::{authority_doc, authority_to_json};
use crate::clock::{normalize_physics_clock_write, normalized, plus};
use crate::doc::{docs, Doc, Json, Num};
use crate::entity::{
    acl_attr, acl_write_attr, authority_spec_for, component_authority_mode, default_mode,
    ensure_component_authority, spec_for, succ, to_opt_string, Auth, AuthorityMode,
    ComponentAuthority, Ent, Entity,
};
use crate::grants::{
    authoritative_component_writer, authority_key, component_key, drop_epoch, grant_authority,
    reject_kernel_reserved_write, reject_stale_authority_epoch_val, reserved_reason, stale_rejected,
    update_rejected, update_rejected_json,
};
use crate::float::{bits_lt, float_lt, opt_bits, Float};
use crate::json::opt_text_doc;
use crate::recovery::{component_set, ent_replayed, set_component};
use crate::state::{
    emit, log_later, note_rejected, views, worker_has_attr, Hand, Metrics, PreparedHandoff,
    PreparedUpdate, ServerState, State, Upd, WalStatus,
};
use crate::strmap::{Dup, StrMap};
use crate::text::{opt_string, opt_text, str_eq};
use crate::wal::kind_of;

verus! {

broadcast use {crate::doc::group_json, crate::strmap::group_map};

/// The text at one of some keys of what `authority.mode` says of a component, or of
/// the `bounds` in it: the first that is there and not empty.
pub open spec fn spec_text(spec: Doc, keys: Seq<Seq<char>>) -> Option<Seq<char>>
    decreases keys.len(),
{
    if keys.len() == 0 {
        None
    } else {
        let k = keys[0];
        let v = match spec.get(k) {
            Some(v) => Some(v),
            None => match spec.get("bounds"@) {
                Some(b) => b.get(k),
                None => None,
            },
        };
        match v {
            Some(Doc::Str(t)) => if t.len() > 0 {
                Some(t)
            } else {
                spec_text(spec, keys.skip(1))
            },
            _ => spec_text(spec, keys.skip(1)),
        }
    }
}

/// The names under which a component's arbiter is stated.
pub open spec fn arbiter_keys() -> Seq<Seq<char>> {
    seq!["arbitration_owner"@, "contact_owner"@, "contactArbiter"@, "arbiter"@]
}

fn spec_text_at<'a>(spec: &'a Json, k: &str) -> (r: Option<&'a str>)
    ensures
        opt_text(r) == spec_text(spec@, seq![k@]),
{
    proof {
        assert(spec_text(spec@, seq![k@].skip(1)) is None);
    }
    let v = match spec.get(k) {
        Some(v) => Some(v),
        None => match spec.get("bounds") {
            Some(b) => b.get(k),
            None => None,
        },
    };
    match v {
        Some(j) => match j.as_str() {
            Some(t) => if t.is_empty() {
                None
            } else {
                Some(t)
            },
            None => None,
        },
        None => None,
    }
}

proof fn lemma_spec_text(spec: Doc, keys: Seq<Seq<char>>)
    requires
        keys.len() > 0,
    ensures
        spec_text(spec, keys) == match spec_text(spec, seq![keys[0]]) {
            Some(t) => Some(t),
            None => spec_text(spec, keys.skip(1)),
        },
{
    assert(spec_text(spec, seq![keys[0]].skip(1)) is None);
}

/// The arbiter that an entity states for a component.
pub open spec fn stated_arbiter(e: Ent, comp: Seq<char>) -> Option<Seq<char>> {
    match spec_for(e.components, comp) {
        Some(d) => spec_text(d, arbiter_keys()),
        None => None,
    }
}

/// The arbiter that an entity states for a component.
pub fn authority_spec_arbiter(e: &Entity, comp: &str) -> (r: Option<String>)
    ensures
        opt_string(r) == stated_arbiter(e@, comp@),
{
    let spec = match authority_spec_for(&e.components, comp) {
        Some(s) => s,
        None => return None,
    };
    proof {
        let k = arbiter_keys();
        lemma_spec_text(spec@, k);
        lemma_spec_text(spec@, k.skip(1));
        lemma_spec_text(spec@, k.skip(1).skip(1));
        lemma_spec_text(spec@, k.skip(1).skip(1).skip(1));
        assert(k.skip(1)[0] == "contact_owner"@);
        assert(k.skip(1).skip(1)[0] == "contactArbiter"@);
        assert(k.skip(1).skip(1).skip(1)[0] == "arbiter"@);
        assert(k.skip(1).skip(1).skip(1).skip(1).len() == 0);
    }
    if let Some(t) = spec_text_at(spec, "arbitration_owner") {
        return Some(t.to_owned());
    }
    if let Some(t) = spec_text_at(spec, "contact_owner") {
        return Some(t.to_owned());
    }
    if let Some(t) = spec_text_at(spec, "contactArbiter") {
        return Some(t.to_owned());
    }
    if let Some(t) = spec_text_at(spec, "arbiter") {
        return Some(t.to_owned());
    }
    None
}

impl State {
    /// Who arbitrates when two entities touch: whom the first states, or the second,
    /// or else the holder of the first one's region.
    pub open spec fn arbiter(self, a: Seq<char>, b: Seq<char>, comp: Seq<char>) -> Option<
        Seq<char>,
    > {
        if self.entities.contains_key(a) && stated_arbiter(self.entities[a], comp) is Some {
            stated_arbiter(self.entities[a], comp)
        } else if self.entities.contains_key(b) && stated_arbiter(self.entities[b], comp) is Some {
            stated_arbiter(self.entities[b], comp)
        } else {
            self.holder(a)
        }
    }
}

/// Who arbitrates when two entities touch.
pub fn contact_arbitration_owner(s: &ServerState, a: &str, b: &str, comp: &str) -> (r: Option<String>)
    ensures
        opt_string(r) == s@.arbiter(a@, b@, comp@),
{
    if let Some(e) = s.entities.get(a) {
        if let Some(o) = authority_spec_arbiter(e, comp) {
            return Some(o);
        }
    }
    if let Some(e) = s.entities.get(b) {
        if let Some(o) = authority_spec_arbiter(e, comp) {
            return Some(o);
        }
    }
    match s.entities.get(a) {
        Some(e) => match s.region_worker.get(e.region.as_str()) {
            Some(w) => Some(w.clone()),
            None => None,
        },
        None => None,
    }
}

/// The event that a component was put under the server's arbitration.
pub open spec fn escalation_event(
    eid: Seq<char>,
    comp: Seq<char>,
    owner: Option<Seq<char>>,
    reason: Seq<char>,
    e: Ent,
) -> Doc {
    Doc::Obj(
        map![
            "kind"@ => Doc::Str("component_authority"@),
            "entity"@ => Doc::Str(eid),
            "version"@ => Doc::Num(Num::Pos(e.version)),
            "writer"@ => Doc::Str("broker.contact"@),
            "comp"@ => Doc::Str(comp),
            "owner"@ => opt_text_doc(owner),
            "authority_epoch"@ => Doc::Num(Num::Pos(e.authority[comp].epoch)),
            "mode"@ => Doc::Str("server_arbitrated"@),
            "reason"@ => Doc::Str(reason),
            "authority"@ => authority_doc(e.authority)],
    )
}

/// The notice that a peer lost a component to the server's arbitration.
pub open spec fn escalation_notice(
    eid: Seq<char>,
    comp: Seq<char>,
    epoch: u64,
    reason: Seq<char>,
) -> Doc {
    Doc::Obj(
        map![
            "op"@ => Doc::Str("AuthorityChange"@),
            "entity"@ => Doc::Str(eid),
            "comp"@ => Doc::Str(comp),
            "authoritative"@ => Doc::Bool(false),
            "authority_epoch"@ => Doc::Num(Num::Pos(epoch)),
            "mode"@ => Doc::Str("server_arbitrated"@),
            "reason"@ => Doc::Str(reason)],
    )
}

/// The entity with a component under the server's arbitration.
pub open spec fn arbitrated(e: Ent, comp: Seq<char>, owner: Option<Seq<char>>) -> Ent {
    let a = e.recorded(comp);
    Ent {
        version: succ(e.version),
        ..e.ensured(comp).with_auth(
            comp,
            Auth { owner, epoch: succ(a.epoch), mode: AuthorityMode::ServerArbitrated },
        )
    }
}

impl State {
    /// The state after a component was put under the server's arbitration.
    pub open spec fn escalated(
        self,
        eid: Seq<char>,
        comp: Seq<char>,
        owner: Option<Seq<char>>,
        reason: Seq<char>,
    ) -> State {
        if self.entities.contains_key(eid) {
            let old = self.entities[eid].recorded(comp).owner;
            let e = arbitrated(self.entities[eid], comp, owner);
            let s1 = self.with_entity(eid, e).logged(escalation_event(eid, comp, owner, reason, e));
            let s2 = if old is Some && owner != old {
                s1.epoch_dropped(old->0, component_key(eid, comp)).emitted(
                    old->0,
                    escalation_notice(eid, comp, e.authority[comp].epoch, reason),
                )
            } else {
                s1
            };
            if owner is Some && s2.workers.contains_key(owner->0) {
                s2.granted(owner->0, eid, comp)
            } else {
                s2
            }
        } else {
            self
        }
    }
}

/// Puts a component under the server's arbitration.
pub fn escalate_component_to_server_arbitrated(
    s: &mut ServerState,
    eid: &str,
    comp: &str,
    owner: Option<&str>,
    reason: &str,
)
    ensures
        final(s)@ == old(s)@.escalated(eid@, comp@, opt_text(owner), reason@),
{
    let mut old_owner: Option<String> = None;
    let mut epoch: u64 = 0;
    let mut version: u64 = 0;
    let mut authority = Json::Null;
    match s.entities.remove(eid) {
        None => return,
        Some(mut e) => {
            ensure_component_authority(&mut e, comp);
            if let Some(ca) = e.authority.remove(comp) {
                epoch = ca.epoch.saturating_add(1);
                old_owner = ca.owner;
                e.authority.insert(
                    comp,
                    ComponentAuthority {
                        owner: to_opt_string(owner),
                        epoch,
                        mode: AuthorityMode::ServerArbitrated,
                    },
                );
            }
            version = e.version.saturating_add(1);
            e.version = version;
            authority = authority_to_json(&e.authority);
            s.entities.insert(eid, e);
        },
    }
    let ev = StrMap::new().with("kind", Json::str("component_authority")).with(
        "entity",
        Json::str(eid),
    ).with("version", Json::u64(version)).with("writer", Json::str("broker.contact")).with(
        "comp",
        Json::str(comp),
    ).with("owner", Json::opt_str(&to_opt_string(owner))).with("authority_epoch", Json::u64(epoch)).with(
        "mode",
        Json::str("server_arbitrated"),
    ).with("reason", Json::str(reason)).with("authority", authority).done();
    log_later(s, ev);
    if let Some(old) = &old_owner {
        let same: bool = match owner {
            Some(o) => str_eq(o, old.as_str()),
            None => false,
        };
        if !same {
            let key = authority_key(eid, comp);
            drop_epoch(s, old.as_str(), key.as_str());
            let msg = StrMap::new().with("op", Json::str("AuthorityChange")).with(
                "entity",
                Json::str(eid),
            ).with("comp", Json::str(comp)).with("authoritative", Json::Bool(false)).with(
                "authority_epoch",
                Json::u64(epoch),
            ).with("mode", Json::str("server_arbitrated")).with("reason", Json::str(reason)).done();
            emit(s, old.as_str(), msg);
        }
    }
    if let Some(o) = owner {
        if s.workers.contains_key(o) {
            grant_authority(s, o, eid, comp);
        }
    }
}

/// A bound as it counts: at least zero.
pub open spec fn at_least_zero(bits: u64) -> u64 {
    if float_lt(bits, 0) {
        0
    } else {
        bits
    }
}

/// The number at one of some keys of what `authority.mode` says of a component, or of
/// the `bounds` in it: the first that is there and a number.
pub open spec fn spec_bound(spec: Doc, keys: Seq<Seq<char>>) -> Option<u64>
    decreases keys.len(),
{
    if keys.len() == 0 {
        None
    } else {
        let k = keys[0];
        let v = match spec.get(k) {
            Some(v) => Some(v),
            None => match spec.get("bounds"@) {
                Some(b) => b.get(k),
                None => None,
            },
        };
        match v {
            Some(d) => match d.as_float() {
                Some(bits) => Some(at_least_zero(bits)),
                None => spec_bound(spec, keys.skip(1)),
            },
            None => spec_bound(spec, keys.skip(1)),
        }
    }
}

/// The bound that an entity states for a component under one of some keys.
pub open spec fn stated_bound(e: Ent, comp: Seq<char>, keys: Seq<Seq<char>>) -> Option<u64> {
    match spec_for(e.components, comp) {
        Some(d) => spec_bound(d, keys),
        None => None,
    }
}

/// Texts by their views.
pub open spec fn names_of(keys: Seq<&str>) -> Seq<Seq<char>> {
    Seq::new(keys.len(), |i: int| keys[i]@)
}

/// The bound that an entity states for a component under one of some keys.
pub fn authority_bound(e: &Entity, comp: &str, keys: &[&str]) -> (r: Option<Float>)
    ensures
        opt_bits(r) == stated_bound(e@, comp@, names_of(keys@)),
{
    let spec = match authority_spec_for(&e.components, comp) {
        Some(s) => s,
        None => return None,
    };
    let ghost all = names_of(keys@);
    let mut i: usize = 0;
    proof {
        assert(all.skip(0) =~= all);
    }
    while i < keys.len()
        invariant
            i <= keys.len(),
            all == names_of(keys@),
            spec_for(e@.components, comp@) == Some(spec@),
            spec_bound(spec@, all) == spec_bound(spec@, all.skip(i as int)),
        decreases keys.len() - i,
    {
        let k = keys[i];
        proof {
            assert(all.skip(i as int)[0] == k@);
            assert(all.skip(i as int).skip(1) =~= all.skip(i + 1));
        }
        let v = match spec.get(k) {
            Some(v) => Some(v),
            None => match spec.get("bounds") {
                Some(b) => b.get(k),
                None => None,
            },
        };
        if let Some(j) = v {
            if let Some(f) = Float::of_json(j) {
                let zero = Float::zero();
                return Some(if f.lt(&zero) { zero } else { f });
            }
        }
        i = i + 1;
    }
    None
}

/// The names under which it is stated how far a client may move an entity at once.
pub open spec fn stride_keys() -> Seq<Seq<char>> {
    seq!["max_position_delta"@, "max_pos_delta"@, "max_delta"@, "maxPositionDelta"@]
}

/// The names under which it is stated how close an entity may come to another.
pub open spec fn contact_keys() -> Seq<Seq<char>> {
    seq!["contact_radius"@, "contactRadius"@, "contact_margin"@, "contactMargin"@]
}

/// How far a client may move an entity at once.
pub fn max_stride(e: &Entity, comp: &str) -> (r: Option<Float>)
    ensures
        opt_bits(r) == stated_bound(e@, comp@, stride_keys()),
{
    let keys = ["max_position_delta", "max_pos_delta", "max_delta", "maxPositionDelta"];
    proof {
        assert(names_of(keys@) =~= stride_keys());
    }
    authority_bound(e, comp, &keys)
}

/// How close an entity may come to another.
pub fn contact_radius(e: &Entity, comp: &str) -> (r: Option<Float>)
    ensures
        opt_bits(r) == stated_bound(e@, comp@, contact_keys()),
{
    let keys = ["contact_radius", "contactRadius", "contact_margin", "contactMargin"];
    proof {
        assert(names_of(keys@) =~= contact_keys());
    }
    authority_bound(e, comp, &keys)
}

/// How long a move is: the float by its bits, and in words with the longest that is
/// allowed.
pub struct Stride {
    pub distance: u64,
    pub words: String,
    pub limit_words: String,
}

/// How close a move comes to another entity, and how close it may, as floats by their
/// bits, and in words.
pub struct Gap {
    pub other: String,
    pub distance: u64,
    pub threshold: u64,
    pub words: String,
    pub threshold_words: String,
}

/// What floating-point arithmetic says of a move: how long it is, where that is a
/// number, and how close it comes to others, in the order in which they are looked at.
pub struct Verdict {
    pub stride: Option<Stride>,
    pub gaps: Vec<Gap>,
}

/// A `Gap` by its views.
#[verifier::ext_equal]
pub ghost struct Near {
    pub other: Seq<char>,
    pub distance: u64,
    pub threshold: u64,
    pub words: Seq<char>,
    pub threshold_words: Seq<char>,
}

impl View for Gap {
    type V = Near;

    open spec fn view(&self) -> Near {
        Near {
            other: self.other@,
            distance: self.distance,
            threshold: self.threshold,
            words: self.words@,
            threshold_words: self.threshold_words@,
        }
    }
}

/// A `Verdict` by its views: the length of the move with its words, and the others.
#[verifier::ext_equal]
pub ghost struct Judged {
    pub stride: Option<(u64, Seq<char>, Seq<char>)>,
    pub gaps: Seq<Near>,
}

impl View for Verdict {
    type V = Judged;

    open spec fn view(&self) -> Judged {
        Judged {
            stride: match self.stride {
                Some(t) => Some((t.distance, t.words@, t.limit_words@)),
                None => None,
            },
            gaps: views(self.gaps@),
        }
    }
}

impl Judged {
    /// Nothing is said.
    pub open spec fn silent() -> Judged {
        Judged { stride: None, gaps: Seq::empty() }
    }
}

impl Verdict {
    /// A verdict that says nothing.
    pub fn silent() -> (r: Verdict)
        ensures
            r@ == Judged::silent(),
    {
        let r = Verdict { stride: None, gaps: Vec::new() };
        proof {
            assert(r@.gaps =~= Seq::empty());
        }
        r
    }
}

/// Why a move is too long.
pub open spec fn stride_reason(words: Seq<char>, limit_words: Seq<char>) -> Seq<char> {
    "client_forward_sparse envelope: pos delta "@ + words + " exceeds max_position_delta "@
        + limit_words
}

/// Why a move touches another entity.
pub open spec fn contact_reason(words: Seq<char>, threshold_words: Seq<char>) -> Seq<char> {
    "contact-risk: candidate distance "@ + words + " <= contact threshold "@ + threshold_words
        + "; escalated to server_arbitrated"@
}

/// What a client is told whose move is too long.
pub open spec fn envelope_rejected(eid: Seq<char>, comp: Seq<char>, reason: Seq<char>) -> Doc {
    Doc::Obj(
        map![
            "op"@ => Doc::Str("UpdateRejected"@),
            "entity"@ => Doc::Str(eid),
            "comp"@ => Doc::Str(comp),
            "reason"@ => Doc::Str(reason),
            "mode"@ => Doc::Str("client_forward_sparse"@)],
    )
}

/// What a client is told whose move touches another entity.
pub open spec fn contact_rejected(
    eid: Seq<char>,
    comp: Seq<char>,
    reason: Seq<char>,
    other: Seq<char>,
) -> Doc {
    Doc::Obj(
        map![
            "op"@ => Doc::Str("UpdateRejected"@),
            "entity"@ => Doc::Str(eid),
            "comp"@ => Doc::Str(comp),
            "reason"@ => Doc::Str(reason),
            "mode"@ => Doc::Str("server_arbitrated"@),
            "contact_entity"@ => Doc::Str(other)],
    )
}

impl State {
    /// Whether a client moves the entity by itself.
    pub open spec fn client_moves(self, eid: Seq<char>, comp: Seq<char>) -> bool {
        &&& comp == "pos"@
        &&& self.entities.contains_key(eid)
        &&& self.entities[eid].mode(comp) == AuthorityMode::ClientForwardSparse
    }

    /// Why a client's move is too long, where it is.
    pub open spec fn overlong(self, eid: Seq<char>, comp: Seq<char>, v: Judged) -> Option<
        Seq<char>,
    > {
        let limit = stated_bound(self.entities[eid], comp, stride_keys());
        match v.stride {
            Some((distance, words, limit_words)) => if self.client_moves(eid, comp) && limit is Some
                && float_lt(limit->0, distance) {
                Some(stride_reason(words, limit_words))
            } else {
                None
            },
            None => None,
        }
    }

    /// Whether a move of one entity touches another: both are moved by clients, and the
    /// gap is not above the threshold.
    pub open spec fn touches(self, eid: Seq<char>, comp: Seq<char>, g: Near) -> bool {
        &&& g.other != eid
        &&& self.client_moves(g.other, comp)
        &&& float_lt(0, g.threshold)
        &&& !float_lt(g.threshold, g.distance)
    }

    /// The first of some entities that a move touches.
    pub open spec fn first_touched(self, eid: Seq<char>, comp: Seq<char>, gaps: Seq<Near>) -> Option<
        Near,
    >
        decreases gaps.len(),
    {
        if gaps.len() == 0 {
            None
        } else {
            match self.first_touched(eid, comp, gaps.drop_last()) {
                Some(g) => Some(g),
                None => if self.touches(eid, comp, gaps.last()) {
                    Some(gaps.last())
                } else {
                    None
                },
            }
        }
    }

    /// The entity that a client's move touches, where it states how close it may come.
    pub open spec fn contact(self, eid: Seq<char>, comp: Seq<char>, v: Judged) -> Option<Near> {
        if self.client_moves(eid, comp) && stated_bound(
            self.entities[eid],
            comp,
            contact_keys(),
        ) is Some {
            self.first_touched(eid, comp, v.gaps)
        } else {
            None
        }
    }

    /// The state after a move that touches another entity: both go under the
    /// server's arbitration.
    pub open spec fn contact_escalated(
        self,
        wid: Seq<char>,
        eid: Seq<char>,
        comp: Seq<char>,
        g: Near,
    ) -> State {
        let owner = self.arbiter(eid, g.other, comp);
        let reason = contact_reason(g.words, g.threshold_words);
        self.escalated(eid, comp, owner, reason).escalated(g.other, comp, owner, reason).emitted(
            wid,
            contact_rejected(eid, comp, reason, g.other),
        )
    }
}

/// Whether a client moves the entity by itself.
pub fn client_moves(s: &ServerState, eid: &str, comp: &str) -> (r: bool)
    ensures
        r == s@.client_moves(eid@, comp@),
{
    match s.entities.get(eid) {
        Some(e) => str_eq(comp, "pos") && component_authority_mode(e, comp)
            == AuthorityMode::ClientForwardSparse,
        None => false,
    }
}

/// Refuses a client's move that is too long.
pub fn reject_client_forward_sparse_envelope(
    s: &mut ServerState,
    wid: &str,
    eid: &str,
    comp: &str,
    verdict: &Verdict,
) -> (r: bool)
    ensures
        r == (old(s)@.overlong(eid@, comp@, verdict@) is Some),
        final(s)@ == if r {
            old(s)@.emitted(
                wid@,
                envelope_rejected(eid@, comp@, old(s)@.overlong(eid@, comp@, verdict@)->0),
            )
        } else {
            old(s)@
        },
{
    if !client_moves(s, eid, comp) {
        return false;
    }
    let stride = match &verdict.stride {
        Some(t) => t,
        None => return false,
    };
    let limit = match s.entities.get(eid) {
        Some(e) => max_stride(e, comp),
        None => None,
    };
    match limit {
        Some(max) => {
            if !bits_lt(max.bits(), stride.distance) {
                return false;
            }
        },
        None => return false,
    }
    let mut reason = "client_forward_sparse envelope: pos delta ".to_owned();
    reason.append(stride.words.as_str());
    reason.append(" exceeds max_position_delta ");
    reason.append(stride.limit_words.as_str());
    let msg = StrMap::new().with("op", Json::str("UpdateRejected")).with("entity", Json::str(eid)).with(
        "comp",
        Json::str(comp),
    ).with("reason", Json::Str(reason)).with("mode", Json::str("client_forward_sparse")).done();
    emit(s, wid, msg);
    true
}

fn find_contact<'a>(s: &ServerState, eid: &str, comp: &str, gaps: &'a Vec<Gap>) -> (r: Option<&'a Gap>)
    ensures
        match r {
            Some(g) => s@.first_touched(eid@, comp@, views(gaps@)) == Some(g@),
            None => s@.first_touched(eid@, comp@, views(gaps@)) is None,
        },
{
    let ghost all = views(gaps@);
    let mut i: usize = 0;
    let mut found: Option<&'a Gap> = None;
    proof {
        assert(all.take(0) =~= Seq::empty());
    }
    while i < gaps.len()
        invariant
            i <= gaps.len(),
            all == views(gaps@),
            match found {
                Some(g) => s@.first_touched(eid@, comp@, all.take(i as int)) == Some(g@),
                None => s@.first_touched(eid@, comp@, all.take(i as int)) is None,
            },
        decreases gaps.len() - i,
    {
        let g = &gaps[i];
        proof {
            assert(all.take(i + 1).drop_last() =~= all.take(i as int));
            assert(all.take(i + 1).last() == g@);
        }
        if found.is_none() && !str_eq(g.other.as_str(), eid) && client_moves(
            s,
            g.other.as_str(),
            comp,
        ) && bits_lt(0, g.threshold) && !bits_lt(g.threshold, g.distance) {
            found = Some(g);
        }
        i = i + 1;
    }
    proof {
        assert(all.take(i as int) =~= all);
    }
    found
}

/// Refuses a client's move that touches another entity, and puts both under the
/// server's arbitration.
pub fn reject_and_escalate_contact_risk(
    s: &mut ServerState,
    wid: &str,
    eid: &str,
    comp: &str,
    verdict: &Verdict,
) -> (r: bool)
    ensures
        r == (old(s)@.contact(eid@, comp@, verdict@) is Some),
        final(s)@ == if r {
            old(s)@.contact_escalated(
                wid@,
                eid@,
                comp@,
                old(s)@.contact(eid@, comp@, verdict@)->0,
            )
        } else {
            old(s)@
        },
{
    if !client_moves(s, eid, comp) {
        return false;
    }
    let radius = match s.entities.get(eid) {
        Some(e) => contact_radius(e, comp),
        None => None,
    };
    if radius.is_none() {
        return false;
    }
    let g = match find_contact(s, eid, comp, &verdict.gaps) {
        Some(g) => g,
        None => return false,
    };
    let other = g.other.as_str();
    let mut reason = "contact-risk: candidate distance ".to_owned();
    reason.append(g.words.as_str());
    reason.append(" <= contact threshold ");
    reason.append(g.threshold_words.as_str());
    reason.append("; escalated to server_arbitrated");
    let owner = contact_arbitration_owner(s, eid, other, comp);
    let o = crate::entity::as_opt_str(&owner);
    escalate_component_to_server_arbitrated(s, eid, comp, o, reason.as_str());
    escalate_component_to_server_arbitrated(s, other, comp, o, reason.as_str());
    let msg = StrMap::new().with("op", Json::str("UpdateRejected")).with("entity", Json::str(eid)).with(
        "comp",
        Json::str(comp),
    ).with("reason", Json::Str(reason)).with("mode", Json::str("server_arbitrated")).with(
        "contact_entity",
        Json::str(other),
    ).done();
    emit(s, wid, msg);
    true
}

/// After a contact neither entity is moved by a client any more, so that a later move of
/// either touches nobody.
pub proof fn law_contact_ends_client_moves(
    s: State,
    wid: Seq<char>,
    eid: Seq<char>,
    comp: Seq<char>,
    v: Judged,
)
    requires
        s.contact(eid, comp, v) is Some,
    ensures
        ({
            let g = s.contact(eid, comp, v)->0;
            let t = s.contact_escalated(wid, eid, comp, g);
            &&& !t.client_moves(eid, comp)
            &&& !t.client_moves(g.other, comp)
        }),
{
    let g = s.contact(eid, comp, v)->0;
    lemma_first_touched(s, eid, comp, v.gaps);
    let owner = s.arbiter(eid, g.other, comp);
    let reason = contact_reason(g.words, g.threshold_words);
    lemma_escalated(s, eid, comp, owner, reason, g.other);
    lemma_escalated(s.escalated(eid, comp, owner, reason), g.other, comp, owner, reason, eid);
}

proof fn lemma_first_touched(s: State, eid: Seq<char>, comp: Seq<char>, gaps: Seq<Near>)
    ensures
        match s.first_touched(eid, comp, gaps) {
            Some(g) => s.touches(eid, comp, g),
            None => true,
        },
    decreases gaps.len(),
{
    if gaps.len() > 0 {
        lemma_first_touched(s, eid, comp, gaps.drop_last());
    }
}

proof fn lemma_escalated(
    s: State,
    eid: Seq<char>,
    comp: Seq<char>,
    owner: Option<Seq<char>>,
    reason: Seq<char>,
    other: Seq<char>,
)
    requires
        s.entities.contains_key(eid),
        other != eid,
    ensures
        ({
            let t = s.escalated(eid, comp, owner, reason);
            &&& t.entities.contains_key(eid)
            &&& t.entities[eid].mode(comp) == AuthorityMode::ServerArbitrated
            &&& t.entities.contains_key(other) == s.entities.contains_key(other)
            &&& t.entities[other] == s.entities[other]
        }),
{
}

/// The record of rejections, kept short.
pub open spec fn capped(rejected: Seq<Doc>) -> Seq<Doc> {
    if rejected.len() > 512 {
        rejected.skip(rejected.len() - 256)
    } else {
        rejected
    }
}

fn cap_rejected(s: &mut ServerState)
    ensures
        final(s)@ == (State { rejected: capped(old(s)@.rejected), ..old(s)@ }),
{
    let n: usize = s.rejected.len();
    if n > 512 {
        let ghost before = docs(s.rejected@);
        let kept = s.rejected.split_off(n - 256);
        s.rejected = kept;
        proof {
            assert(docs(s.rejected@) =~= before.skip(n - 256));
        }
    }
}

/// The line about a write that was refused for want of authority.
pub open spec fn refusal_line(
    wid: Seq<char>,
    eid: Seq<char>,
    comp: Seq<char>,
    reason: Seq<char>,
) -> Doc {
    Doc::Obj(
        map![
            "entity"@ => Doc::Str(eid),
            "writer"@ => Doc::Str(wid),
            "owner"@ => Doc::Str(reason),
            "comp"@ => Doc::Str(comp)],
    )
}

/// What a peer is told that writes a mirror.
pub open spec fn ghost_rejected(eid: Seq<char>, comp: Seq<char>, owner: Seq<char>) -> Doc {
    Doc::Obj(
        map![
            "op"@ => Doc::Str("UpdateRejected"@),
            "entity"@ => Doc::Str(eid),
            "comp"@ => Doc::Str(comp),
            "reason"@ => Doc::Str("ghost is read-only (non-authoritative; owned by zone '"@ + owner
                + "'); cannot claim authority over a cross-seam mirror"@),
            "ghost"@ => Doc::Bool(true),
            "owner_region"@ => Doc::Str(owner)],
    )
}

/// How many of some writes are of an entity.
pub open spec fn writes_of(updates: Seq<Upd>, eid: Seq<char>) -> nat
    decreases updates.len(),
{
    if updates.len() == 0 {
        0
    } else {
        writes_of(updates.drop_last(), eid) + if updates.last().eid == eid {
            1nat
        } else {
            0nat
        }
    }
}

fn count_writes(s: &ServerState, eid: &str) -> (r: u64)
    ensures
        r == writes_of(s@.pending_updates, eid@),
{
    let ghost all = views(s.pending_updates@);
    let mut n: u64 = 0;
    let mut i: usize = 0;
    while i < s.pending_updates.len()
        invariant
            i <= s.pending_updates.len(),
            all == views(s.pending_updates@),
            n == writes_of(all.take(i as int), eid@),
            n <= i,
        decreases s.pending_updates.len() - i,
    {
        proof {
            assert(all.take(i + 1).drop_last() =~= all.take(i as int));
            assert(all.take(i + 1).last() == s.pending_updates@[i as int]@);
        }
        if str_eq(s.pending_updates[i].eid.as_str(), eid) {
            n = n + 1;
        }
        i = i + 1;
    }
    proof {
        assert(all.take(i as int) =~= all);
    }
    n
}

/// A write that a peer asks for.
pub ghost struct Ask {
    pub wid: Seq<char>,
    pub eid: Seq<char>,
    pub comp: Seq<char>,
    pub value: Doc,
    pub epoch: Option<u64>,
}

impl State {
    /// The write that an accepted request becomes.
    pub open spec fn write_of(self, a: Ask, now_ms: u64) -> Upd {
        let e = self.entities[a.eid];
        Upd {
            gen: succ(self.wal.pending_gen),
            eid: a.eid,
            comp: a.comp,
            value: normalized(e, a.comp, a.value, now_ms),
            version: succ(plus(e.version, writes_of(self.pending_updates, a.eid) as u64)),
            writer: a.wid,
        }
    }

    /// Whether a request is accepted: the entity is this broker's, the peer may
    /// write the component, has the attribute that the entity asks for, leaves alone
    /// what needs a privilege, acts under the current epoch, and moves no client's
    /// entity too far or into another.
    pub open spec fn accepts(self, a: Ask, v: Judged) -> bool {
        &&& self.entities.contains_key(a.eid)
        &&& self.write_refusal(a.wid, a.eid, a.comp) is None
        &&& self.lacked_attr(a) is None
        &&& !(a.comp == "acl"@ && !self.has_attr(a.wid, "acl_admin"@))
        &&& !self.reserved_from(a.wid, a.comp)
        &&& !self.is_stale(a.wid, a.eid, a.comp, a.epoch)
        &&& self.overlong(a.eid, a.comp, v) is None
        &&& self.contact(a.eid, a.comp, v) is None
    }

    /// The attribute that the entity asks of the writer and that it lacks.
    pub open spec fn lacked_attr(self, a: Ask) -> Option<Seq<char>> {
        match acl_attr(self.entities[a.eid].components, "write"@, a.comp) {
            Some(attr) => if self.has_attr(a.wid, attr) {
                None
            } else {
                Some(attr)
            },
            None => None,
        }
    }

    /// The state after a request that is not accepted: the peer is told why.
    pub open spec fn refused(self, a: Ask, v: Judged) -> State {
        if !self.entities.contains_key(a.eid) {
            if self.ghosts.contains_key(a.eid) {
                self.emitted(
                    a.wid,
                    ghost_rejected(a.eid, a.comp, self.ghosts[a.eid].owner_region),
                )
            } else {
                self.emitted(a.wid, update_rejected(a.eid, a.comp, "entity not found"@))
            }
        } else if self.write_refusal(a.wid, a.eid, a.comp) is Some {
            let reason = self.write_refusal(a.wid, a.eid, a.comp)->0;
            let s = self.noted(refusal_line(a.wid, a.eid, a.comp, reason));
            (State { rejected: capped(s.rejected), ..s }).emitted(
                a.wid,
                update_rejected(a.eid, a.comp, reason),
            )
        } else if self.lacked_attr(a) is Some {
            self.emitted(
                a.wid,
                update_rejected(
                    a.eid,
                    a.comp,
                    "acl: write requires attribute '"@ + self.lacked_attr(a)->0 + "'"@,
                ),
            )
        } else if a.comp == "acl"@ && !self.has_attr(a.wid, "acl_admin"@) {
            self.emitted(
                a.wid,
                update_rejected(
                    a.eid,
                    a.comp,
                    "acl is immutable post-creation (requires the 'acl_admin' attribute)"@,
                ),
            )
        } else if self.reserved_from(a.wid, a.comp) {
            self.emitted(a.wid, update_rejected(a.eid, a.comp, reserved_reason()))
        } else if self.is_stale(a.wid, a.eid, a.comp, a.epoch) {
            self.emitted(
                a.wid,
                stale_rejected(
                    a.eid,
                    a.comp,
                    self.claimed_epoch(a.wid, a.eid, a.comp, a.epoch)->0,
                    self.entities[a.eid].epoch(a.comp),
                ),
            )
        } else if self.overlong(a.eid, a.comp, v) is Some {
            self.emitted(
                a.wid,
                envelope_rejected(a.eid, a.comp, self.overlong(a.eid, a.comp, v)->0),
            )
        } else {
            self.contact_escalated(a.wid, a.eid, a.comp, self.contact(a.eid, a.comp, v)->0)
        }
    }
}

/// A write that is ready for the log, by its view.
pub open spec fn opt_upd(o: Option<PreparedUpdate>) -> Option<Upd> {
    match o {
        Some(u) => Some(u@),
        None => None,
    }
}

/// Checks a write. What comes out goes to the log; nothing of the world changes
/// before it is there. A refused peer is told why.
pub fn prepare_update(
    s: &mut ServerState,
    wid: &str,
    eid: &str,
    comp: &str,
    raw_value: Json,
    supplied_epoch: Option<u64>,
    verdict: &Verdict,
    now_ms: u64,
) -> (r: Option<PreparedUpdate>)
    ensures
        ({
            let a = Ask {
                wid: wid@,
                eid: eid@,
                comp: comp@,
                value: raw_value@,
                epoch: supplied_epoch,
            };
            if old(s)@.accepts(a, verdict@) {
                &&& opt_upd(r) == Some(old(s)@.write_of(a, now_ms))
                &&& final(s)@ == old(s)@
            } else {
                &&& r is None
                &&& final(s)@ == old(s)@.refused(a, verdict@)
            }
        }),
{
    if !s.entities.contains_key(eid) {
        let owner: Option<String> = match s.ghosts.get(eid) {
            Some(g) => Some(g.owner_region.clone()),
            None => None,
        };
        match owner {
            Some(o) => {
                let mut reason = "ghost is read-only (non-authoritative; owned by zone '".to_owned();
                reason.append(o.as_str());
                reason.append("'); cannot claim authority over a cross-seam mirror");
                let msg = StrMap::new().with("op", Json::str("UpdateRejected")).with(
                    "entity",
                    Json::str(eid),
                ).with("comp", Json::str(comp)).with("reason", Json::Str(reason)).with(
                    "ghost",
                    Json::Bool(true),
                ).with("owner_region", Json::Str(o)).done();
                emit(s, wid, msg);
            },
            None => {
                emit(s, wid, update_rejected_json(eid, comp, "entity not found"));
            },
        }
        return None;
    }
    if let Err(reason) = authoritative_component_writer(s, wid, eid, comp) {
        let line = StrMap::new().with("entity", Json::str(eid)).with("writer", Json::str(wid)).with(
            "owner",
            Json::str(reason.as_str()),
        ).with("comp", Json::str(comp)).done();
        note_rejected(s, line);
        cap_rejected(s);
        emit(s, wid, update_rejected_json(eid, comp, reason.as_str()));
        return None;
    }
    let need: Option<String> = match s.entities.get(eid) {
        Some(e) => acl_write_attr(e, comp),
        None => None,
    };
    if let Some(attr) = need {
        if !worker_has_attr(s, wid, attr.as_str()) {
            let mut reason = "acl: write requires attribute '".to_owned();
            reason.append(attr.as_str());
            reason.append("'");
            emit(s, wid, update_rejected_json(eid, comp, reason.as_str()));
            return None;
        }
    }
    if str_eq(comp, "acl") && !worker_has_attr(s, wid, "acl_admin") {
        emit(
            s,
            wid,
            update_rejected_json(
                eid,
                comp,
                "acl is immutable post-creation (requires the 'acl_admin' attribute)",
            ),
        );
        return None;
    }
    if reject_kernel_reserved_write(s, wid, eid, comp) {
        return None;
    }
    if reject_stale_authority_epoch_val(s, wid, eid, comp, supplied_epoch) {
        return None;
    }
    let pending: u64 = count_writes(s, eid);
    let mut version: u64 = 1;
    let mut value = Json::Null;
    if let Some(e) = s.entities.get(eid) {
        value = normalize_physics_clock_write(e, comp, raw_value, now_ms);
        version = e.version.saturating_add(pending).saturating_add(1);
    }
    if reject_client_forward_sparse_envelope(s, wid, eid, comp, verdict) {
        return None;
    }
    if reject_and_escalate_contact_risk(s, wid, eid, comp, verdict) {
        return None;
    }
    Some(
        PreparedUpdate {
            gen: s.wal.pending_gen.saturating_add(1),
            eid: eid.to_owned(),
            comp: comp.to_owned(),
            value,
            version,
            writer: wid.to_owned(),
        },
    )
}

/// The event of a write.
pub open spec fn update_event(u: Upd) -> Doc {
    Doc::Obj(
        map![
            "kind"@ => Doc::Str("write"@),
            "entity"@ => Doc::Str(u.eid),
            "version"@ => Doc::Num(Num::Pos(u.version)),
            "writer"@ => Doc::Str(u.writer),
            "comp"@ => Doc::Str(u.comp),
            "value"@ => u.value,
            "gen"@ => Doc::Num(Num::Pos(u.gen))],
    )
}

/// The event of a write.
pub fn prepared_update_wal_event(u: &PreparedUpdate) -> (r: Json)
    ensures
        r@ == update_event(u@),
{
    StrMap::new().with("kind", Json::str("write")).with("entity", Json::str(u.eid.as_str())).with(
        "version",
        Json::u64(u.version),
    ).with("writer", Json::str(u.writer.as_str())).with("comp", Json::str(u.comp.as_str())).with(
        "value",
        u.value.dup(),
    ).with("gen", Json::u64(u.gen)).done()
}

/// The reason that a write did not reach the log.
pub open spec fn not_written_reason() -> Seq<char> {
    "wal_persist_failed: write not durably persisted (disk full / WAL degraded) — not published"@
}

/// The reason that a write was not made durable.
pub open spec fn not_synced_reason() -> Seq<char> {
    "wal_sync_failed: staged write did not cross durable watermark; not published"@
}

/// Queued transfers, once a write is queued behind them: of the write and a transfer of its
/// entity the write is the later, on the log as in the world, and its version stands.
pub open spec fn overtaken(hs: Seq<Hand>, u: Upd) -> Seq<Hand> {
    hs.map_values(
        |h: Hand|
            if h.eid == u.eid {
                Hand { version: u.version, ..h }
            } else {
                h
            },
    )
}

impl State {
    /// The state after a write went to the log, or did not.
    pub open spec fn write_staged(self, u: Upd, written: bool) -> State {
        if written {
            State {
                wal: WalStatus { pending_gen: u.gen, ..self.wal },
                pending_updates: self.pending_updates.push(u),
                pending_handoffs: overtaken(self.pending_handoffs, u),
                ..self
            }
        } else {
            self.emitted(u.writer, update_rejected(u.eid, u.comp, not_written_reason()))
        }
    }
}

fn overtake(hs: &mut Vec<PreparedHandoff>, u: &PreparedUpdate)
    ensures
        views(final(hs)@) == overtaken(views(old(hs)@), u@),
{
    let ghost before = views(hs@);
    let mut all: Vec<PreparedHandoff> = Vec::new();
    core::mem::swap(hs, &mut all);
    let ghost given = all@;
    let mut back: Vec<PreparedHandoff> = Vec::new();
    while all.len() > 0
        invariant
            all.len() + back.len() == given.len(),
            all@ == given.take(all.len() as int),
            before == views(given),
            forall|i: int|
                0 <= i < back.len() ==> (#[trigger] back@[i])@ == overtaken(
                    before,
                    u@,
                )[given.len() - 1 - i],
        decreases all.len(),
    {
        if let Some(h) = all.pop() {
            let mut h = h;
            proof {
                let n = all.len() as int;
                assert(h == given[n]);
                assert(before[n] == h@);
                assert(all@ =~= given.take(n));
            }
            if str_eq(h.eid.as_str(), u.eid.as_str()) {
                h.version = u.version;
            }
            back.push(h);
        }
    }
    let ghost turned = back@;
    while back.len() > 0
        invariant
            hs.len() + back.len() == given.len(),
            back@ == turned.take(back.len() as int),
            turned.len() == given.len(),
            before.len() == given.len(),
            forall|i: int|
                0 <= i < turned.len() ==> (#[trigger] turned[i])@ == overtaken(
                    before,
                    u@,
                )[given.len() - 1 - i],
            forall|i: int| 0 <= i < hs.len() ==> (#[trigger] hs@[i])@ == overtaken(before, u@)[i],
        decreases back.len(),
    {
        if let Some(h) = back.pop() {
            proof {
                let n = back.len() as int;
                assert(h == turned[n]);
                assert(back@ =~= turned.take(n));
            }
            hs.push(h);
        }
    }
    proof {
        assert(views(hs@) =~= overtaken(before, u@));
    }
}

/// Queues a write that is on the log; without that, refuses it.
pub fn queue_prepared_update(s: &mut ServerState, u: PreparedUpdate, written: bool) -> (r: bool)
    ensures
        r == written,
        final(s)@ == old(s)@.write_staged(u@, written),
{
    if written {
        s.wal.pending_gen = u.gen;
        overtake(&mut s.pending_handoffs, &u);
        let ghost before = views(s.pending_updates@);
        s.pending_updates.push(u);
        proof {
            assert(views(s.pending_updates@) =~= before.push(u@));
        }
        true
    } else {
        emit(
            s,
            u.writer.as_str(),
            update_rejected_json(
                u.eid.as_str(),
                u.comp.as_str(),
                "wal_persist_failed: write not durably persisted (disk full / WAL degraded) — not published",
            ),
        );
        false
    }
}

/// The entity after a write.
pub open spec fn written(e: Ent, u: Upd) -> Ent {
    Ent { version: u.version, ..component_set(e.ensured(u.comp), u.comp, u.value) }
}

impl State {
    /// The state after a write was applied.
    pub open spec fn write_applied(self, u: Upd) -> State {
        if self.entities.contains_key(u.eid) {
            State {
                metrics: Metrics { applies: succ(self.metrics.applies), ..self.metrics },
                ..self.with_entity(u.eid, written(self.entities[u.eid], u))
            }
        } else {
            self
        }
    }

    /// The state after some writers were told that their writes are not durable.
    pub open spec fn writes_refused(self, updates: Seq<Upd>) -> State
        decreases updates.len(),
    {
        if updates.len() == 0 {
            self
        } else {
            let u = updates.last();
            self.writes_refused(updates.drop_last()).emitted(
                u.writer,
                update_rejected(u.eid, u.comp, not_synced_reason()),
            )
        }
    }

    /// The state after the log was made durable, or not: the queue of writes is
    /// empty, and with success the durable generation covers them.
    pub open spec fn writes_synced(self, synced: bool) -> State {
        let s = State { pending_updates: Seq::empty(), ..self };
        if synced {
            State {
                wal: WalStatus {
                    durable_gen: max_gen(self.pending_updates, self.wal.durable_gen),
                    ..self.wal
                },
                ..s
            }
        } else {
            s.writes_refused(self.pending_updates)
        }
    }
}

/// The highest generation of some writes, and at least `least`.
pub open spec fn max_gen(updates: Seq<Upd>, least: u64) -> u64
    decreases updates.len(),
{
    if updates.len() == 0 {
        least
    } else {
        let m = max_gen(updates.drop_last(), least);
        if m < updates.last().gen {
            updates.last().gen
        } else {
            m
        }
    }
}

/// Applies a write that is durable.
pub fn apply_prepared_update(s: &mut ServerState, u: &PreparedUpdate)
    ensures
        final(s)@ == old(s)@.write_applied(u@),
{
    let eid = u.eid.as_str();
    if let Some(mut e) = s.entities.remove(eid) {
        ensure_component_authority(&mut e, u.comp.as_str());
        set_component(&mut e, u.comp.as_str(), &u.value);
        e.version = u.version;
        s.entities.insert(eid, e);
        s.metrics.applies = s.metrics.applies.saturating_add(1);
    }
}

/// Closes the group of queued writes once the log was made durable, or not. With
/// success they come back to be applied and published, in order; without it their
/// writers are told, and the world is as it was.
pub fn take_synced_updates(s: &mut ServerState, synced: bool) -> (r: Vec<PreparedUpdate>)
    ensures
        final(s)@ == old(s)@.writes_synced(synced),
        views(r@) == if synced {
            old(s)@.pending_updates
        } else {
            Seq::empty()
        },
{
    let ghost before = s@;
    let mut pending: Vec<PreparedUpdate> = Vec::new();
    core::mem::swap(&mut s.pending_updates, &mut pending);
    proof {
        assert(views(s.pending_updates@) =~= Seq::empty());
    }
    let ghost all = views(pending@);
    let mut i: usize = 0;
    proof {
        assert(all.take(0) =~= Seq::empty());
    }
    if synced {
        let mut top: u64 = s.wal.durable_gen;
        while i < pending.len()
            invariant
                i <= pending.len(),
                all == views(pending@),
                top == max_gen(all.take(i as int), before.wal.durable_gen),
            decreases pending.len() - i,
        {
            proof {
                assert(all.take(i + 1).drop_last() =~= all.take(i as int));
                assert(all.take(i + 1).last() == pending@[i as int]@);
            }
            if top < pending[i].gen {
                top = pending[i].gen;
            }
            i = i + 1;
        }
        proof {
            assert(all.take(i as int) =~= all);
        }
        s.wal.durable_gen = top;
        pending
    } else {
        let ghost emptied = s@;
        while i < pending.len()
            invariant
                i <= pending.len(),
                all == views(pending@),
                s@ == emptied.writes_refused(all.take(i as int)),
            decreases pending.len() - i,
        {
            let u = &pending[i];
            proof {
                assert(all.take(i + 1).drop_last() =~= all.take(i as int));
                assert(all.take(i + 1).last() == u@);
            }
            emit(
                s,
                u.writer.as_str(),
                update_rejected_json(
                    u.eid.as_str(),
                    u.comp.as_str(),
                    "wal_sync_failed: staged write did not cross durable watermark; not published",
                ),
            );
            i = i + 1;
        }
        proof {
            assert(all.take(i as int) =~= all);
        }
        let out: Vec<PreparedUpdate> = Vec::new();
        proof {
            assert(views(out@) =~= Seq::<Upd>::empty());
        }
        out
    }
}

/// To tell writers changes nothing else.
pub proof fn lemma_refusals_only_tell(s: State, updates: Seq<Upd>)
    ensures
        s.writes_refused(updates) == (State { outbox: s.writes_refused(updates).outbox, ..s }),
    decreases updates.len(),
{
    if updates.len() > 0 {
        lemma_refusals_only_tell(s, updates.drop_last());
    }
}

/// Nothing is seen that could be lost: neither a write that is only on its way to
/// the log, nor one that failed to get there or to be made durable, changes an
/// entity or the durable generation.
pub proof fn law_durable_before_visible(s: State, u: Upd, written: bool)
    ensures
        s.write_staged(u, written).entities == s.entities,
        s.write_staged(u, written).wal.durable_gen == s.wal.durable_gen,
        s.writes_synced(false).entities == s.entities,
        s.writes_synced(false).wal == s.wal,
        s.writes_synced(false).pending_updates == Seq::<Upd>::empty(),
{
    lemma_refusals_only_tell(State { pending_updates: Seq::empty(), ..s }, s.pending_updates);
}

/// The durable generation never falls, and after a successful sync it covers every
/// write that was queued.
pub proof fn law_durable_generation_covers(s: State, i: int)
    requires
        0 <= i < s.pending_updates.len(),
    ensures
        s.writes_synced(true).wal.durable_gen >= s.wal.durable_gen,
        s.writes_synced(true).wal.durable_gen >= s.pending_updates[i].gen,
{
    lemma_max_gen(s.pending_updates, s.wal.durable_gen, i);
}

proof fn lemma_max_gen(updates: Seq<Upd>, least: u64, i: int)
    requires
        0 <= i < updates.len(),
    ensures
        max_gen(updates, least) >= least,
        max_gen(updates, least) >= updates[i].gen,
    decreases updates.len(),
{
    let d = updates.drop_last();
    if i < d.len() {
        assert(d[i] == updates[i]);
        lemma_max_gen(d, least, i);
    } else if d.len() > 0 {
        lemma_max_gen(d, least, 0);
    } else {
        assert(max_gen(d, least) == least);
    }
}

/// Whether a write is of what decides its own authority: of `authority.mode` or `acl`,
/// where the old or the new value speaks of itself.
pub open spec fn speaks_of_itself(e: Ent, u: Upd) -> bool {
    let after = e.components.insert(u.comp, u.value);
    ||| u.comp == "authority.mode"@ && (spec_for(e.components, u.comp) is Some || spec_for(
        after,
        u.comp,
    ) is Some)
    ||| u.comp == "acl"@ && (acl_attr(e.components, "client_write"@, u.comp) is Some || acl_attr(
        after,
        "client_write"@,
        u.comp,
    ) is Some)
}

/// A restart sees what was published: replaying the event of a write does to the
/// entity what applying the write did, where an authority for the component is on
/// record, or the write does not speak of its own authority.
pub proof fn law_write_replays_as_applied(e: Ent, u: Upd)
    requires
        e.authority.contains_key(u.comp) || !speaks_of_itself(e, u),
    ensures
        kind_of(update_event(u)) == "write"@,
        ent_replayed(e, "write"@, update_event(u)) == written(e, u),
{
    reveal_strlit("kind");
    reveal_strlit("entity");
    reveal_strlit("version");
    reveal_strlit("writer");
    reveal_strlit("comp");
    reveal_strlit("value");
    reveal_strlit("gen");
    assert("kind"@.len() == 4);
    assert("entity"@.len() == 6);
    assert("version"@.len() == 7);
    assert("writer"@.len() == 6);
    assert("comp"@.len() == 4);
    assert("value"@.len() == 5);
    assert("gen"@.len() == 3);
    assert("kind"@[0] != "comp"@[0]);
    assert("entity"@[0] != "writer"@[0]);
    let ev = update_event(u);
    assert(ev.get_str("kind"@) == Some("write"@));
    assert(ev.get_u64("version"@) == Some(u.version));
    assert(ev.get_str("comp"@) == Some(u.comp));
    assert(ev.get("value"@) == Some(u.value));
    if !e.authority.contains_key(u.comp) {
        let after = component_set(e, u.comp, u.value);
        assert(spec_for(after.components, u.comp) == spec_for(e.components, u.comp));
        assert(acl_attr(after.components, "client_write"@, u.comp) == acl_attr(
            e.components,
            "client_write"@,
            u.comp,
        ));
        assert(default_mode(after.components, u.comp) == default_mode(e.components, u.comp));
    }
}

}
