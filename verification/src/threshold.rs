//! Threshold transactions: an entity that two regions prepare for, and that changes
//! hands when they commit.

use vstd::prelude::*;
use vstd::string::*;
use crate::authority::{
    advance_physics_island_authority, apply_authority_snapshot, authority_doc, authority_to_json,
};
use crate::components::{named_entity, removed_msg, removed_msg_json};
use crate::doc::{Doc, Json, Num};
use crate::entity::{
    as_opt_str, authority_epoch_from_value, component_authority_epoch, succ, value_epoch, Ent,
    Entity,
};
use crate::grants::{
    authoritative_entity_owner, reject_stale_authority_epoch_val, revoke_all, stale_rejected,
    update_rejected, update_rejected_json,
};
use crate::handoff::{at, receive, string_at};
use crate::json::{num_or, or_null, text_or, texts_doc};
use crate::order::sorted;
use crate::recovery::{threshold_tx, threshold_tx_value};
use crate::sight::{component_update, component_update_json, sorted_keys, tell_viewers};
use crate::state::{emit, note_rejected, ServerState, State};
use crate::strmap::{texts, Dup, StrMap};
use crate::text::{opt_string, str_eq};

verus! {

broadcast use {crate::doc::group_json, crate::strmap::group_map};

/// The phases of a transaction.
pub open spec fn phases() -> Set<Seq<char>> {
    set!["prepare"@, "preload_ready"@, "commit"@, "adopt"@, "abort"@]
}

/// A transaction as a request states it.
#[verifier::ext_equal]
pub ghost struct Tx {
    pub eid: Seq<char>,
    pub tx_id: Seq<char>,
    pub phase: Seq<char>,
    pub from: Doc,
    pub to: Doc,
    pub ts_ms: u64,
}

/// The transaction that a request states.
pub open spec fn tx_of(f: Doc, now_ms: u64) -> Tx {
    Tx {
        eid: named_entity(f),
        tx_id: text_or(f.get_str("tx_id"@), ""@),
        phase: text_or(f.get_str("phase"@), ""@),
        from: or_null(f.get("from"@)),
        to: or_null(f.get("to"@)),
        ts_ms: now_ms,
    }
}

impl Tx {
    pub open spec fn is_valid(self) -> bool {
        self.eid.len() > 0 && self.tx_id.len() > 0 && phases().contains(self.phase)
    }

    pub open spec fn is_commit(self) -> bool {
        self.phase == "commit"@
    }

    /// Whether the transaction is over.
    pub open spec fn is_final(self) -> bool {
        self.phase == "adopt"@ || self.phase == "abort"@
    }

    /// The region that a commit moves the entity to.
    pub open spec fn target(self) -> Option<Seq<char>> {
        if self.is_commit() {
            match self.to.as_str() {
                Some(t) => if t.len() > 0 {
                    Some(t)
                } else {
                    None
                },
                None => None,
            }
        } else {
            None
        }
    }

    /// The record of the transaction.
    pub open spec fn record(self) -> Doc {
        threshold_tx(self.tx_id, self.phase, self.from, self.to, self.ts_ms)
    }

    /// The entity with the transaction on it, and in its region.
    pub open spec fn on(self, e: Ent) -> Ent {
        Ent {
            components: if self.is_final() {
                e.components.remove("threshold.tx"@)
            } else {
                e.components.insert("threshold.tx"@, self.record())
            },
            region: match self.target() {
                Some(t) => t,
                None => e.region,
            },
            ..e
        }
    }
}

/// A step of a transaction that is ready for the log.
pub struct ThresholdPlan {
    pub eid: String,
    pub tx_id: String,
    pub phase: String,
    pub from: Json,
    pub to: Json,
    pub ts_ms: u64,
    pub version: u64,
    pub existed: bool,
    pub authority_epoch: u64,
    pub old_region: String,
    pub new_region: String,
    pub moved_comps: Vec<String>,
    pub authority: Json,
}

/// A `ThresholdPlan` by its views.
#[verifier::ext_equal]
pub ghost struct Step {
    pub tx: Tx,
    pub version: u64,
    pub existed: bool,
    pub authority_epoch: u64,
    pub old_region: Seq<char>,
    pub new_region: Seq<char>,
    pub moved_comps: Seq<Seq<char>>,
    pub authority: Doc,
}

impl View for ThresholdPlan {
    type V = Step;

    open spec fn view(&self) -> Step {
        Step {
            tx: Tx {
                eid: self.eid@,
                tx_id: self.tx_id@,
                phase: self.phase@,
                from: self.from@,
                to: self.to@,
                ts_ms: self.ts_ms,
            },
            version: self.version,
            existed: self.existed,
            authority_epoch: self.authority_epoch,
            old_region: self.old_region@,
            new_region: self.new_region@,
            moved_comps: texts(self.moved_comps@),
            authority: self.authority@,
        }
    }
}

/// The answer to a refused step.
pub open spec fn tx_refused(req: Doc, tx: Tx, with_phase: bool, reason: Seq<char>) -> Doc {
    let head = map![
        "op"@ => Doc::Str("ThresholdTxResponse"@),
        "request_id"@ => req,
        "entity"@ => Doc::Str(tx.eid),
        "tx_id"@ => Doc::Str(tx.tx_id)];
    let m = if with_phase {
        head.insert("phase"@, Doc::Str(tx.phase))
    } else {
        head
    };
    Doc::Obj(m.insert("success"@, Doc::Bool(false)).insert("reason"@, Doc::Str(reason)))
}

impl State {
    /// The state after a step was refused.
    pub open spec fn tx_answered(
        self,
        wid: Seq<char>,
        f: Doc,
        tx: Tx,
        with_phase: bool,
        reason: Seq<char>,
    ) -> State {
        match f.get("request_id"@) {
            Some(req) => self.emitted(wid, tx_refused(req, tx, with_phase, reason)),
            None => self.emitted(wid, update_rejected(tx.eid, "threshold.tx"@, reason)),
        }
    }

    /// Whether a step is accepted.
    pub open spec fn steps(self, wid: Seq<char>, f: Doc, tx: Tx) -> bool {
        &&& tx.is_valid()
        &&& !self.deleted_entities.contains(tx.eid)
        &&& self.entity_refusal(wid, tx.eid) is None
        &&& !self.is_stale(wid, tx.eid, "threshold.tx"@, value_epoch(f))
    }

    /// The state after a step that is not accepted.
    pub open spec fn step_refused(self, wid: Seq<char>, f: Doc, tx: Tx) -> State {
        if !tx.is_valid() {
            match f.get("request_id"@) {
                Some(req) => self.emitted(
                    wid,
                    tx_refused(req, tx, false, "invalid threshold transaction"@),
                ),
                None => self,
            }
        } else if self.deleted_entities.contains(tx.eid) {
            self.tx_answered(wid, f, tx, true, "entity tombstoned"@)
        } else if self.entity_refusal(wid, tx.eid) is Some {
            self.tx_answered(wid, f, tx, false, self.entity_refusal(wid, tx.eid)->0)
        } else {
            self.emitted(
                wid,
                stale_rejected(
                    tx.eid,
                    "threshold.tx"@,
                    self.claimed_epoch(wid, tx.eid, "threshold.tx"@, value_epoch(f))->0,
                    self.entities[tx.eid].epoch("threshold.tx"@),
                ),
            )
        }
    }

    /// The step that a request becomes: a commit hands the physics from the holder of
    /// the old region to that of the new one.
    pub open spec fn step_of(self, tx: Tx) -> Step {
        let e = self.entities[tx.eid];
        let n = tx.on(e);
        let old = self.holder(tx.eid);
        let new = match tx.target() {
            Some(t) => at(self.region_worker, t),
            None => None,
        };
        Step {
            tx,
            version: succ(e.version),
            existed: e.components.contains_key("threshold.tx"@),
            authority_epoch: if tx.is_commit() {
                n.next_island_epoch()
            } else {
                n.epoch("pos"@)
            },
            old_region: e.region,
            new_region: n.region,
            moved_comps: if tx.is_commit() {
                n.advanced_names(old, new)
            } else {
                Seq::empty()
            },
            authority: authority_doc(
                if tx.is_commit() {
                    n.advanced(old, new).authority
                } else {
                    n.authority
                },
            ),
        }
    }
}

fn refuse_tx(
    s: &mut ServerState,
    wid: &str,
    f: &Json,
    eid: &str,
    tx_id: &str,
    phase: Option<&str>,
    reason: &str,
    Ghost(tx): Ghost<Tx>,
)
    requires
        tx.eid == eid@,
        tx.tx_id == tx_id@,
        phase is Some ==> tx.phase == (phase->0)@,
    ensures
        final(s)@ == old(s)@.tx_answered(wid@, f@, tx, phase is Some, reason@),
{
    match f.get("request_id") {
        Some(req) => {
            let head = StrMap::new().with("op", Json::str("ThresholdTxResponse")).with(
                "request_id",
                req.dup(),
            ).with("entity", Json::str(eid)).with("tx_id", Json::str(tx_id));
            let m = match phase {
                Some(p) => head.with("phase", Json::str(p)),
                None => head,
            };
            emit(
                s,
                wid,
                m.with("success", Json::Bool(false)).with("reason", Json::str(reason)).done(),
            );
        },
        None => emit(s, wid, update_rejected_json(eid, "threshold.tx", reason)),
    }
}

/// A planned step by its view.
pub open spec fn opt_step(o: Option<ThresholdPlan>) -> Option<Step> {
    match o {
        Some(p) => Some(p@),
        None => None,
    }
}

/// Takes a request for a step. What comes out goes to the log.
pub fn plan_threshold(s: &mut ServerState, wid: &str, f: &Json, now_ms: u64) -> (r: Option<
    ThresholdPlan,
>)
    ensures
        ({
            let tx = tx_of(f@, now_ms);
            if old(s)@.steps(wid@, f@, tx) {
                &&& opt_step(r) == Some(old(s)@.step_of(tx))
                &&& final(s)@ == old(s)@
            } else {
                &&& r is None
                &&& final(s)@ == old(s)@.step_refused(wid@, f@, tx)
            }
        }),
{
    let ghost tx = tx_of(f@, now_ms);
    let eid = f.str_or("entity", "");
    let tx_id = f.str_or("tx_id", "");
    let phase = f.str_or("phase", "");
    let known: bool = str_eq(phase, "prepare") || str_eq(phase, "preload_ready") || str_eq(
        phase,
        "commit",
    ) || str_eq(phase, "adopt") || str_eq(phase, "abort");
    if eid.is_empty() || tx_id.is_empty() || !known {
        if f.get("request_id").is_some() {
            refuse_tx(s, wid, f, eid, tx_id, None, "invalid threshold transaction", Ghost(tx));
        }
        return None;
    }
    if s.deleted_entities.contains(eid) {
        refuse_tx(s, wid, f, eid, tx_id, Some(phase), "entity tombstoned", Ghost(tx));
        return None;
    }
    if let Err(reason) = authoritative_entity_owner(s, wid, eid) {
        refuse_tx(s, wid, f, eid, tx_id, None, reason.as_str(), Ghost(tx));
        return None;
    }
    if reject_stale_authority_epoch_val(s, wid, eid, "threshold.tx", authority_epoch_from_value(f)) {
        return None;
    }
    let from = f.member("from");
    let to = f.member("to");
    let commit: bool = str_eq(phase, "commit");
    let over: bool = str_eq(phase, "adopt") || str_eq(phase, "abort");
    let mut next = match s.entities.get(eid) {
        Some(e) => e.dup(),
        None => return None,
    };
    let old_region = next.region.clone();
    let old_owner = string_at(&s.region_worker, old_region.as_str());
    let existed: bool = next.components.contains_key("threshold.tx");
    if over {
        next.components.remove("threshold.tx");
    } else {
        next.components.insert(
            "threshold.tx",
            threshold_tx_value(tx_id, phase, from.dup(), to.dup(), now_ms),
        );
    }
    let mut new_owner: Option<String> = None;
    if commit {
        if let Some(t) = to.as_str() {
            if !t.is_empty() {
                next.region = t.to_owned();
                new_owner = string_at(&s.region_worker, t);
            }
        }
    }
    proof {
        assert(next@ =~= tx.on(s@.entities[eid@]));
        assert(opt_string(old_owner) == s@.holder(eid@));
    }
    let version: u64 = next.version.saturating_add(1);
    let new_region = next.region.clone();
    let mut moved: Vec<String> = Vec::new();
    proof {
        assert(texts(moved@) =~= Seq::empty());
    }
    let mut epoch: u64 = component_authority_epoch(&next, "pos");
    if commit {
        let (e, m) = advance_physics_island_authority(
            &mut next,
            as_opt_str(&old_owner),
            as_opt_str(&new_owner),
        );
        epoch = e;
        moved = m;
    }
    Some(
        ThresholdPlan {
            eid: eid.to_owned(),
            tx_id: tx_id.to_owned(),
            phase: phase.to_owned(),
            from,
            to,
            ts_ms: now_ms,
            version,
            existed,
            authority_epoch: epoch,
            old_region,
            new_region,
            moved_comps: moved,
            authority: authority_to_json(&next.authority),
        },
    )
}

/// The event of a step.
pub open spec fn step_event(p: Step, writer: Seq<char>) -> Doc {
    Doc::Obj(
        map![
            "kind"@ => Doc::Str("threshold_"@ + p.tx.phase),
            "entity"@ => Doc::Str(p.tx.eid),
            "version"@ => Doc::Num(Num::Pos(p.version)),
            "writer"@ => Doc::Str(writer),
            "tx_id"@ => Doc::Str(p.tx.tx_id),
            "authority_epoch"@ => Doc::Num(Num::Pos(p.authority_epoch)),
            "authority"@ => p.authority,
            "components"@ => texts_doc(p.moved_comps),
            "from"@ => p.tx.from,
            "to"@ => p.tx.to,
            "ts_ms"@ => Doc::Num(Num::Pos(p.tx.ts_ms))],
    )
}

/// The event of a step.
pub fn threshold_wal_event(p: &ThresholdPlan, writer: &str) -> (r: Json)
    ensures
        r@ == step_event(p@, writer@),
{
    let mut kind = "threshold_".to_owned();
    kind.append(p.phase.as_str());
    StrMap::new().with("kind", Json::Str(kind)).with("entity", Json::str(p.eid.as_str())).with(
        "version",
        Json::u64(p.version),
    ).with("writer", Json::str(writer)).with("tx_id", Json::str(p.tx_id.as_str())).with(
        "authority_epoch",
        Json::u64(p.authority_epoch),
    ).with("authority", p.authority.dup()).with("components", Json::texts(&p.moved_comps)).with(
        "from",
        p.from.dup(),
    ).with("to", p.to.dup()).with("ts_ms", Json::u64(p.ts_ms)).done()
}

/// The entity after a step.
pub open spec fn stepped(e: Ent, p: Step) -> Ent {
    let n = p.tx.on(e);
    Ent {
        version: p.version,
        ..if p.tx.is_commit() {
            n.snapshot_applied(p.authority)
        } else {
            n
        }
    }
}

/// The notice of a step to those who see the entity.
pub open spec fn step_notice(p: Step) -> Doc {
    if p.tx.is_final() {
        removed_msg(p.tx.eid, "threshold.tx"@)
    } else if p.existed {
        component_update(p.tx.eid, "threshold.tx"@, p.tx.record())
    } else {
        Doc::Obj(
            map![
                "op"@ => Doc::Str("AddComponent"@),
                "entity"@ => Doc::Str(p.tx.eid),
                "comp"@ => Doc::Str("threshold.tx"@),
                "value"@ => p.tx.record()],
        )
    }
}

/// The answer to a step that was taken.
pub open spec fn tx_done(req: Doc, tx: Tx) -> Doc {
    Doc::Obj(
        map![
            "op"@ => Doc::Str("ThresholdTxResponse"@),
            "request_id"@ => req,
            "entity"@ => Doc::Str(tx.eid),
            "tx_id"@ => Doc::Str(tx.tx_id),
            "phase"@ => Doc::Str(tx.phase),
            "success"@ => Doc::Bool(true)],
    )
}

impl State {
    /// The state after an entity changed hands with its region.
    pub open spec fn changed_hands(
        self,
        eid: Seq<char>,
        old_region: Seq<char>,
        new_region: Seq<char>,
        comps: Seq<Seq<char>>,
    ) -> State {
        let old = at(self.region_worker, old_region);
        let new = at(self.region_worker, new_region);
        let s = if old is Some && self.workers.contains_key(old->0) {
            self.all_revoked(old->0, eid, comps)
        } else {
            self
        };
        if new is Some {
            s.received(new->0, eid, comps)
        } else {
            s
        }
    }

    /// The state after a step went to the log, or did not.
    pub open spec fn step_finished(self, wid: Seq<char>, f: Doc, p: Step, written: bool) -> State {
        if !written {
            self.tx_answered(
                wid,
                f,
                p.tx,
                true,
                "wal_persist_failed: threshold transaction not durably recorded"@,
            )
        } else if !self.entities.contains_key(p.tx.eid) {
            self
        } else {
            let s = self.with_entity(p.tx.eid, stepped(self.entities[p.tx.eid], p));
            let s2 = if p.tx.is_commit() && p.old_region != p.new_region {
                s.changed_hands(p.tx.eid, p.old_region, p.new_region, p.moved_comps)
            } else {
                s
            };
            let s3 = s2.viewers_told(p.tx.eid, step_notice(p));
            match f.get("request_id"@) {
                Some(req) => s3.emitted(wid, tx_done(req, p.tx)),
                None => s3,
            }
        }
    }
}

fn change_hands(
    s: &mut ServerState,
    eid: &str,
    old_region: &str,
    new_region: &str,
    comps: &Vec<String>,
)
    ensures
        final(s)@ == old(s)@.changed_hands(eid@, old_region@, new_region@, texts(comps@)),
{
    let old_wid = string_at(&s.region_worker, old_region);
    let new_wid = string_at(&s.region_worker, new_region);
    if let Some(o) = old_wid {
        if s.workers.contains_key(o.as_str()) {
            revoke_all(s, o.as_str(), eid, comps);
        }
    }
    if let Some(n) = new_wid {
        receive(s, n.as_str(), eid, comps);
    }
}

/// Takes a step that is on the log, and answers the request.
pub fn finish_threshold(s: &mut ServerState, wid: &str, f: &Json, p: &ThresholdPlan, written: bool)
    ensures
        final(s)@ == old(s)@.step_finished(wid@, f@, p@, written),
{
    if !written {
        refuse_tx(
            s,
            wid,
            f,
            p.eid.as_str(),
            p.tx_id.as_str(),
            Some(p.phase.as_str()),
            "wal_persist_failed: threshold transaction not durably recorded",
            Ghost(p@.tx),
        );
        return;
    }
    let eid = p.eid.as_str();
    let commit: bool = str_eq(p.phase.as_str(), "commit");
    let over: bool = str_eq(p.phase.as_str(), "adopt") || str_eq(p.phase.as_str(), "abort");
    let record = threshold_tx_value(
        p.tx_id.as_str(),
        p.phase.as_str(),
        p.from.dup(),
        p.to.dup(),
        p.ts_ms,
    );
    match s.entities.remove(eid) {
        None => return,
        Some(mut e) => {
            if over {
                e.components.remove("threshold.tx");
            } else {
                e.components.insert("threshold.tx", record.dup());
            }
            if commit {
                if let Some(t) = p.to.as_str() {
                    if !t.is_empty() {
                        e.region = t.to_owned();
                    }
                }
                apply_authority_snapshot(&mut e, &p.authority);
            }
            e.version = p.version;
            proof {
                assert(e@ =~= stepped(old(s)@.entities[eid@], p@));
            }
            s.entities.insert(eid, e);
        },
    }
    if commit && !str_eq(p.old_region.as_str(), p.new_region.as_str()) {
        change_hands(s, eid, p.old_region.as_str(), p.new_region.as_str(), &p.moved_comps);
    }
    let notice = if over {
        removed_msg_json(eid, "threshold.tx")
    } else if p.existed {
        component_update_json(eid, "threshold.tx", record)
    } else {
        StrMap::new().with("op", Json::str("AddComponent")).with("entity", Json::str(eid)).with(
            "comp",
            Json::str("threshold.tx"),
        ).with("value", record).done()
    };
    tell_viewers(s, eid, &notice);
    if let Some(req) = f.get("request_id") {
        let msg = StrMap::new().with("op", Json::str("ThresholdTxResponse")).with(
            "request_id",
            req.dup(),
        ).with("entity", Json::str(eid)).with("tx_id", Json::str(p.tx_id.as_str())).with(
            "phase",
            Json::str(p.phase.as_str()),
        ).with("success", Json::Bool(true)).done();
        emit(s, wid, msg);
    }
}

/// Whether the transaction on an entity has waited too long for its commit.
pub open spec fn timed_out(e: Ent, ttl_ms: u64, now_ms: u64) -> bool {
    &&& ttl_ms > 0
    &&& e.components.contains_key("threshold.tx"@)
    &&& ({
        let tx = e.components["threshold.tx"@];
        let phase = text_or(tx.get_str("phase"@), ""@);
        let ts = num_or(tx.get_u64("ts_ms"@), now_ms);
        (phase == "prepare"@ || phase == "preload_ready"@) && now_ms - ts >= ttl_ms
    })
}

/// The event that a transaction timed out.
pub open spec fn timeout_event(eid: Seq<char>, e: Ent) -> Doc {
    let tx = e.components["threshold.tx"@];
    Doc::Obj(
        map![
            "kind"@ => Doc::Str("threshold_abort"@),
            "entity"@ => Doc::Str(eid),
            "version"@ => Doc::Num(Num::Pos(succ(e.version))),
            "writer"@ => Doc::Str("threshold-gc"@),
            "tx_id"@ => Doc::Str(text_or(tx.get_str("tx_id"@), ""@)),
            "from"@ => or_null(tx.get("from"@)),
            "to"@ => or_null(tx.get("to"@)),
            "reason"@ => Doc::Str("preload timeout"@)],
    )
}

/// Those of some entities whose transaction has waited too long.
pub open spec fn timed_out_among(s: State, now_ms: u64, names: Seq<Seq<char>>) -> Seq<Seq<char>>
    decreases names.len(),
{
    if names.len() == 0 {
        Seq::empty()
    } else {
        let before = timed_out_among(s, now_ms, names.drop_last());
        if s.entities.contains_key(names.last()) && timed_out(
            s.entities[names.last()],
            s.threshold_ttl_ms,
            now_ms,
        ) {
            before.push(names.last())
        } else {
            before
        }
    }
}

fn has_timed_out(e: &Entity, ttl_ms: u64, now_ms: u64) -> (r: bool)
    ensures
        r == timed_out(e@, ttl_ms, now_ms),
{
    if ttl_ms == 0 {
        return false;
    }
    match e.components.get("threshold.tx") {
        None => false,
        Some(tx) => {
            let phase = tx.str_or("phase", "");
            if !str_eq(phase, "prepare") && !str_eq(phase, "preload_ready") {
                return false;
            }
            let ts: u64 = tx.u64_or("ts_ms", now_ms);
            now_ms >= ts && now_ms - ts >= ttl_ms
        },
    }
}

/// The entities whose transaction has waited too long for its commit.
pub fn gc_threshold_timeouts(s: &ServerState, now_ms: u64) -> (r: Vec<String>)
    ensures
        texts(r@) == timed_out_among(s@, now_ms, sorted(s@.entities.dom())),
{
    let ids = sorted_keys(&s.entities);
    let ghost all = texts(ids@);
    let mut out: Vec<String> = Vec::new();
    let mut i: usize = 0;
    proof {
        assert(all.take(0) =~= Seq::empty());
        assert(texts(out@) =~= Seq::empty());
    }
    while i < ids.len()
        invariant
            i <= ids.len(),
            all == texts(ids@),
            texts(out@) == timed_out_among(s@, now_ms, all.take(i as int)),
        decreases ids.len() - i,
    {
        let eid = ids[i].as_str();
        let ghost before = texts(out@);
        proof {
            assert(all.take(i + 1).drop_last() =~= all.take(i as int));
            assert(all.take(i + 1).last() == eid@);
        }
        if let Some(e) = s.entities.get(eid) {
            if has_timed_out(e, s.threshold_ttl_ms, now_ms) {
                out.push(ids[i].clone());
                proof {
                    assert(texts(out@) =~= before.push(eid@));
                }
            }
        }
        i = i + 1;
    }
    proof {
        assert(all.take(i as int) =~= all);
    }
    out
}

/// The event that the transaction on an entity timed out; none where it has none.
pub fn threshold_timeout_event(s: &ServerState, eid: &str) -> (r: Option<Json>)
    ensures
        match r {
            Some(ev) => s@.entities.contains_key(eid@)
                && s@.entities[eid@].components.contains_key("threshold.tx"@) && ev@
                == timeout_event(eid@, s@.entities[eid@]),
            None => !s@.entities.contains_key(eid@)
                || !s@.entities[eid@].components.contains_key("threshold.tx"@),
        },
{
    let e = match s.entities.get(eid) {
        Some(e) => e,
        None => return None,
    };
    let tx = match e.components.get("threshold.tx") {
        Some(t) => t,
        None => return None,
    };
    Some(
        StrMap::new().with("kind", Json::str("threshold_abort")).with("entity", Json::str(eid)).with(
            "version",
            Json::u64(e.version.saturating_add(1)),
        ).with("writer", Json::str("threshold-gc")).with("tx_id", Json::str(tx.str_or("tx_id", ""))).with(
            "from",
            tx.member("from"),
        ).with("to", tx.member("to")).with("reason", Json::str("preload timeout")).done(),
    )
}

impl State {
    /// The state after a transaction that timed out was aborted, or was not.
    pub open spec fn timeout_finished(self, eid: Seq<char>, written: bool) -> State {
        if !written {
            self.noted(
                Doc::Obj(
                    map![
                        "entity"@ => Doc::Str(eid),
                        "comp"@ => Doc::Str("threshold.tx"@),
                        "reason"@ => Doc::Str(
                            "wal_persist_failed: threshold timeout abort not durably recorded"@,
                        )],
                ),
            )
        } else if self.entities.contains_key(eid) && self.entities[eid].components.contains_key(
            "threshold.tx"@,
        ) {
            let e = self.entities[eid];
            self.with_entity(
                eid,
                Ent {
                    components: e.components.remove("threshold.tx"@),
                    version: succ(e.version),
                    ..e
                },
            ).viewers_told(eid, removed_msg(eid, "threshold.tx"@))
        } else {
            self
        }
    }
}

/// Aborts a transaction that timed out, once that is on the log.
pub fn finish_threshold_timeout(s: &mut ServerState, eid: &str, written: bool)
    ensures
        final(s)@ == old(s)@.timeout_finished(eid@, written),
{
    if !written {
        let line = StrMap::new().with("entity", Json::str(eid)).with(
            "comp",
            Json::str("threshold.tx"),
        ).with(
            "reason",
            Json::str("wal_persist_failed: threshold timeout abort not durably recorded"),
        ).done();
        note_rejected(s, line);
        return;
    }
    let open: bool = match s.entities.get(eid) {
        Some(e) => e.components.contains_key("threshold.tx"),
        None => false,
    };
    if !open {
        return;
    }
    if let Some(mut e) = s.entities.remove(eid) {
        e.components.remove("threshold.tx");
        e.version = e.version.saturating_add(1);
        s.entities.insert(eid, e);
    }
    tell_viewers(s, eid, &removed_msg_json(eid, "threshold.tx"));
}

/// A step that is not on the log moves nothing and fences nobody.
pub proof fn law_unlogged_step_moves_nothing(s: State, wid: Seq<char>, f: Doc, p: Step)
    ensures
        s.step_finished(wid, f, p, false).entities == s.entities,
        s.step_finished(wid, f, p, false).workers == s.workers,
{
}

}
