//! A restart sees what was: replaying an event does to the store what the event did to
//! the world when it was applied.

use vstd::prelude::*;
use vstd::string::*;
use crate::adopt::arrival;
use crate::authority::{auth_doc, authority_doc, law_snapshot_round_trip};
use crate::components::{
    add_event, change_event, named_comp, named_entity, reassigned, remove_event, Change,
};
use crate::control::reserve_event;
use crate::doc::Doc;
use crate::entity::{law_mode_names, succ, value_mode, Auth, AuthorityMode, Ent};
use crate::failover::{grant_doc, regranted};
use crate::float::{law_point_round_trip, point_of};
use crate::handoff::{handoff_event, moved};
use crate::json::or_null;
use crate::lifecycle::tombstone_event;
use crate::mesh::{ack_event, departing_authority, Leave};
use crate::recovery::{
    departure_epoch, ent_replayed, ev_entity, granted, later_epoch, lemma_kinds_differ, Store,
};
use crate::spawn::newborn;
use crate::startup::resent_frame;
use crate::state::{Grant, Hand, State, Upd};
use crate::threshold::{step_event, stepped, timeout_event, Step};
use crate::update::{arbitrated, escalation_event, law_write_replays_as_applied, update_event};
use crate::wal::kind_of;

verus! {

broadcast use {crate::doc::group_json, crate::strmap::group_map};

/// The keys of events are different texts.
pub proof fn lemma_event_keys()
    ensures
        "kind"@.len() == 4,
        "entity"@.len() == 6,
        "version"@.len() == 7,
        "writer"@.len() == 6,
        "comp"@.len() == 4,
        "value"@.len() == 5,
        "owner"@.len() == 5,
        "authority_epoch"@.len() == 15,
        "mode"@.len() == 4,
        "authority"@.len() == 9,
        "components"@.len() == 10,
        "authority_snapshot"@.len() == 18,
        "from"@.len() == 4,
        "to"@.len() == 2,
        "source"@.len() == 6,
        "target"@.len() == 6,
        "x"@.len() == 1,
        "pos"@.len() == 3,
        "vel"@.len() == 3,
        "lease_epoch"@.len() == 11,
        "reason"@.len() == 6,
        "gen"@.len() == 3,
        "tx_id"@.len() == 5,
        "ts_ms"@.len() == 5,
        "src_region"@.len() == 10,
        "source_durable_gen"@.len() == 18,
        "op"@.len() == 2,
        "first_id"@.len() == 8,
        "count"@.len() == 5,
        "next_id"@.len() == 7,
        "kind"@[0] == 'k',
        "comp"@[0] == 'c',
        "mode"@[0] == 'm',
        "from"@[0] == 'f',
        "entity"@[0] == 'e',
        "writer"@[0] == 'w',
        "source"@[0] == 's',
        "target"@[0] == 't',
        "reason"@[0] == 'r',
        "value"@[0] == 'v',
        "owner"@[0] == 'o',
        "tx_id"@[0] == 't',
        "tx_id"@[1] == 'x',
        "ts_ms"@[1] == 's',
        "count"@[0] == 'c',
        "pos"@[0] == 'p',
        "vel"@[0] == 'v',
        "gen"@[0] == 'g',
        "authority_snapshot"@[0] == 'a',
        "source_durable_gen"@[0] == 's',
        "components"@[0] == 'c',
        "src_region"@[0] == 's',
        "version"@[0] == 'v',
        "next_id"@[0] == 'n',
        "to"@[0] == 't',
        "op"@[0] == 'o',
{
    reveal_strlit("kind");
    reveal_strlit("entity");
    reveal_strlit("version");
    reveal_strlit("writer");
    reveal_strlit("comp");
    reveal_strlit("value");
    reveal_strlit("owner");
    reveal_strlit("authority_epoch");
    reveal_strlit("mode");
    reveal_strlit("authority");
    reveal_strlit("components");
    reveal_strlit("authority_snapshot");
    reveal_strlit("from");
    reveal_strlit("to");
    reveal_strlit("source");
    reveal_strlit("target");
    reveal_strlit("x");
    reveal_strlit("pos");
    reveal_strlit("vel");
    reveal_strlit("lease_epoch");
    reveal_strlit("reason");
    reveal_strlit("gen");
    reveal_strlit("tx_id");
    reveal_strlit("ts_ms");
    reveal_strlit("src_region");
    reveal_strlit("source_durable_gen");
    reveal_strlit("op");
    reveal_strlit("first_id");
    reveal_strlit("count");
    reveal_strlit("next_id");
}

/// The kinds of events that speak of one entity are different texts.
pub proof fn lemma_late_kinds()
    ensures
        "write"@.len() == 5,
        "component_add"@.len() == 13,
        "component_remove"@.len() == 16,
        "transfer"@.len() == 8,
        "authority_epoch"@.len() == 15,
        "component_authority"@.len() == 19,
        "threshold_prepare"@.len() == 17,
        "threshold_preload_ready"@.len() == 23,
        "threshold_commit"@.len() == 16,
        "threshold_adopt"@.len() == 15,
        "threshold_abort"@.len() == 15,
        "component_remove"@[0] == 'c',
        "threshold_commit"@[0] == 't',
        "authority_epoch"@[0] == 'a',
        "threshold_adopt"@[0] == 't',
        "threshold_abort"@[0] == 't',
        "threshold_adopt"@[11] == 'd',
        "threshold_abort"@[11] == 'b',
{
    reveal_strlit("write");
    reveal_strlit("component_add");
    reveal_strlit("component_remove");
    reveal_strlit("transfer");
    reveal_strlit("authority_epoch");
    reveal_strlit("component_authority");
    reveal_strlit("threshold_prepare");
    reveal_strlit("threshold_preload_ready");
    reveal_strlit("threshold_commit");
    reveal_strlit("threshold_adopt");
    reveal_strlit("threshold_abort");
}

/// The events of some writes.
pub open spec fn update_events(us: Seq<Upd>) -> Seq<Doc> {
    us.map_values(|u: Upd| update_event(u))
}

impl State {
    /// The state after some writes were applied, in order.
    pub open spec fn writes_applied(self, us: Seq<Upd>) -> State
        decreases us.len(),
    {
        if us.len() == 0 {
            self
        } else {
            self.writes_applied(us.drop_last()).write_applied(us.last())
        }
    }
}

proof fn lemma_writes_keep(s: State, us: Seq<Upd>)
    ensures
        s.writes_applied(us).entities.dom() == s.entities.dom(),
        forall|k: Seq<char>, c: Seq<char>|
            s.entities.contains_key(k) && #[trigger] s.entities[k].authority.contains_key(c)
                ==> s.writes_applied(us).entities[k].authority.contains_key(c),
    decreases us.len(),
{
    if us.len() > 0 {
        lemma_writes_keep(s, us.drop_last());
        let mid = s.writes_applied(us.drop_last());
        assert(mid.write_applied(us.last()).entities.dom() =~= s.entities.dom());
    }
}

/// What replay reads from the event of a write.
pub proof fn lemma_write_fields(u: Upd)
    ensures
        kind_of(update_event(u)) == "write"@,
        ev_entity(update_event(u)) == u.eid,
        update_event(u).get_u64("version"@) == Some(u.version),
        update_event(u).get_str("comp"@) == Some(u.comp),
        update_event(u).get("value"@) == Some(u.value),
        forall|st: Store, resend: bool| #[trigger]
            st.replayed(update_event(u), resend) == st.entity_set(
                u.eid,
                ent_replayed(st.entities[u.eid], "write"@, update_event(u)),
            ),
{
    lemma_event_keys();
    lemma_late_kinds();
    lemma_first_kinds();
    let ev = update_event(u);
    assert(ev.get_str("kind"@) == Some("write"@));
    assert(ev.get_str("entity"@) == Some(u.eid));
}

/// What replay reads from the event of a transfer.
pub proof fn lemma_transfer_fields(h: Hand)
    ensures
        kind_of(handoff_event(h)) == "transfer"@,
        ev_entity(handoff_event(h)) == h.eid,
        forall|st: Store, resend: bool| #[trigger]
            st.replayed(handoff_event(h), resend) == st.entity_set(
                h.eid,
                ent_replayed(st.entities[h.eid], "transfer"@, handoff_event(h)),
            ),
{
    lemma_event_keys();
    lemma_late_kinds();
    lemma_first_kinds();
    let ev = handoff_event(h);
    assert(ev.get_str("kind"@) == Some("transfer"@));
    assert(ev.get_str("entity"@) == Some(h.eid));
}

/// The other kinds of events are different texts.
pub proof fn lemma_first_kinds()
    ensures
        "mesh_acked"@.len() == 10,
        "mesh_out"@.len() == 8,
        "register"@.len() == 8,
        "delete_tombstone"@.len() == 16,
        "mesh_forwarded_fence"@.len() == 20,
        "failover_grant"@.len() == 14,
        "block_migration"@.len() == 15,
        "partition_config"@.len() == 16,
        "reserve_entity_ids"@.len() == 18,
        "mesh_out"@[0] == 'm',
        "register"@[0] == 'r',
        "transfer"@[0] == 't',
{
    reveal_strlit("transfer");
    reveal_strlit("mesh_acked");
    reveal_strlit("mesh_out");
    reveal_strlit("register");
    reveal_strlit("delete_tombstone");
    reveal_strlit("mesh_forwarded_fence");
    reveal_strlit("failover_grant");
    reveal_strlit("block_migration");
    reveal_strlit("partition_config");
    reveal_strlit("reserve_entity_ids");
}

/// A restart sees every write of a group: replaying the events of the writes, in the order
/// in which they were queued, gives the entities that applying them gave. A component that
/// decides on authorities has an authority on record.
pub proof fn law_group_replays(s: State, st: Store, us: Seq<Upd>, resend: bool)
    requires
        st.entities == s.entities,
        s.entities.dom().disjoint(st.tombstones),
        forall|i: int|
            0 <= i < us.len() && s.entities.contains_key((#[trigger] us[i]).eid) && (us[i].comp
                == "authority.mode"@ || us[i].comp == "acl"@)
                ==> s.entities[us[i].eid].authority.contains_key(us[i].comp),
    ensures
        st.all_replayed(update_events(us), resend) == (Store {
            entities: s.writes_applied(us).entities,
            ..st
        }),
    decreases us.len(),
{
    let evs = update_events(us);
    if us.len() > 0 {
        let u = us.last();
        let mid = s.writes_applied(us.drop_last());
        assert(evs.drop_last() =~= update_events(us.drop_last()));
        assert(evs.last() == update_event(u));
        assert forall|i: int|
            0 <= i < us.drop_last().len() && s.entities.contains_key(
                (#[trigger] us.drop_last()[i]).eid,
            ) && (us.drop_last()[i].comp == "authority.mode"@ || us.drop_last()[i].comp
                == "acl"@) implies s.entities[us.drop_last()[i].eid].authority.contains_key(
            us.drop_last()[i].comp,
        ) by {
            assert(us[i] == us.drop_last()[i]);
        }
        law_group_replays(s, st, us.drop_last(), resend);
        lemma_writes_keep(s, us.drop_last());
        lemma_event_keys();
        lemma_late_kinds();
        lemma_kinds_differ();
        lemma_first_kinds();
        let ev = update_event(u);
        assert(ev.get_str("kind"@) == Some("write"@));
        assert(ev.get_str("entity"@) == Some(u.eid));
        let stm = st.all_replayed(evs.drop_last(), resend);
        if mid.entities.contains_key(u.eid) {
            assert(s.entities.dom().contains(u.eid));
            assert(us[us.len() - 1] == u);
            law_write_replays_as_applied(mid.entities[u.eid], u);
            assert(!st.tombstones.contains(u.eid));
        }
        assert(stm.replayed(ev, resend) =~= (Store {
            entities: mid.write_applied(u).entities,
            ..st
        }));
    }
}

/// No write is lost in a crossing: what a departure sends holds the write that was applied
/// before it.
pub proof fn law_write_travels(s: State, u: Upd, target: Seq<char>)
    requires
        s.entities.contains_key(u.eid),
    ensures
        ({
            let d = s.write_applied(u).departure_of(u.eid, target);
            if u.comp == "pos"@ {
                d.handoff.get("pos"@) == Some(point_of(Some(u.value)).doc())
            } else if u.comp == "vel"@ {
                d.handoff.get("vel"@) == Some(point_of(Some(u.value)).doc())
            } else {
                match d.handoff.get("components"@) {
                    Some(c) => c.get(u.comp) == Some(u.value),
                    None => false,
                }
            }
        }),
{
    lemma_event_keys();
}

/// A transfer between regions is replayed as it was applied: the entity is in its new
/// region, where it was or where the transfer put it, under its new epoch. (A coordinate
/// that is no finite number has no text in the log.)
pub proof fn law_transfer_replays(e: Ent, h: Hand)
    requires
        h.pos is Some ==> (h.pos->0).x is Some && (h.pos->0).y is Some,
    ensures
        kind_of(handoff_event(h)) == "transfer"@,
        ev_entity(handoff_event(h)) == h.eid,
        ent_replayed(e, "transfer"@, handoff_event(h)) == moved(e, h),
{
    lemma_event_keys();
    lemma_late_kinds();
    if h.pos is Some {
        law_point_round_trip(h.pos->0);
    }
    let ev = handoff_event(h);
    assert(ev.get_str("kind"@) == Some("transfer"@));
    assert(ev.get_str("entity"@) == Some(h.eid));
    assert(ev.get_str("to"@) == Some(h.to));
    assert(ev.get("pos"@) == match h.pos {
        Some(p) => Some(p.doc()),
        None => None,
    });
    assert(ev.get("vel"@) is None);
    assert(ev.get_u64("version"@) == Some(h.version));
    assert(ev.get("authority"@) == Some(h.authority));
}

/// The abort of a transaction that timed out is replayed as it was made.
pub proof fn law_timeout_replays(e: Ent, at: Ent, eid: Seq<char>)
    ensures
        ({
            let ev = timeout_event(eid, at);
            &&& kind_of(ev) == "threshold_abort"@
            &&& ev_entity(ev) == eid
            &&& ent_replayed(e, "threshold_abort"@, ev) == (Ent {
                components: e.components.remove("threshold.tx"@),
                version: succ(at.version),
                ..e
            })
        }),
{
    lemma_event_keys();
    lemma_late_kinds();
    reveal_strlit("tx_id");
    reveal_strlit("writer");
    reveal_strlit("from");
    reveal_strlit("to");
    reveal_strlit("reason");
    let ev = timeout_event(eid, at);
    assert(ev.get_str("kind"@) == Some("threshold_abort"@));
    assert(ev.get_str("entity"@) == Some(eid));
    assert(ev.get_u64("version"@) == Some(succ(at.version)));
}

/// A component that came is replayed as it was added.
pub proof fn law_added_component_replays(e: Ent, f: Doc, writer: Seq<char>)
    ensures
        ({
            let ev = add_event(f, succ(e.version), writer);
            &&& kind_of(ev) == "component_add"@
            &&& ev_entity(ev) == named_entity(f)
            &&& ent_replayed(e, "component_add"@, ev) == (Ent {
                version: succ(e.version),
                ..(Ent {
                    components: e.components.insert(named_comp(f), or_null(f.get("value"@))),
                    ..e
                }).ensured(named_comp(f))
            })
        }),
{
    lemma_event_keys();
    lemma_late_kinds();
    let ev = add_event(f, succ(e.version), writer);
    assert(ev.get_str("kind"@) == Some("component_add"@));
    assert(ev.get_str("entity"@) == Some(named_entity(f)));
    assert(ev.get_str("comp"@) == Some(named_comp(f)));
    assert(ev.get("value"@) == Some(or_null(f.get("value"@))));
    assert(ev.get_u64("version"@) == Some(succ(e.version)));
}

/// A component that went is replayed as it was removed.
pub proof fn law_removed_component_replays(e: Ent, f: Doc, writer: Seq<char>)
    ensures
        ({
            let ev = remove_event(f, succ(e.version), writer);
            &&& kind_of(ev) == "component_remove"@
            &&& ev_entity(ev) == named_entity(f)
            &&& ent_replayed(e, "component_remove"@, ev) == (Ent {
                components: e.components.remove(named_comp(f)),
                version: succ(e.version),
                ..e
            })
        }),
{
    lemma_event_keys();
    lemma_late_kinds();
    let ev = remove_event(f, succ(e.version), writer);
    assert(ev.get_str("kind"@) == Some("component_remove"@));
    assert(ev.get_str("entity"@) == Some(named_entity(f)));
    assert(ev.get_str("comp"@) == Some(named_comp(f)));
    assert(ev.get_u64("version"@) == Some(succ(e.version)));
}

/// A change of authority is replayed as it was made.
pub proof fn law_authority_change_replays(e: Ent, c: Change, writer: Seq<char>)
    ensures
        kind_of(change_event(c, writer)) == "component_authority"@,
        ev_entity(change_event(c, writer)) == c.eid,
        ent_replayed(e, "component_authority"@, change_event(c, writer)) == reassigned(e, c),
{
    lemma_event_keys();
    lemma_late_kinds();
    law_mode_names(c.mode);
    let ev = change_event(c, writer);
    assert(ev.get_str("kind"@) == Some("component_authority"@));
    assert(ev.get_str("entity"@) == Some(c.eid));
    assert(ev.get_str("comp"@) == Some(c.comp));
    assert(ev.get_u64("version"@) == Some(c.version));
    assert(ev.get_u64("authority_epoch"@) == Some(c.epoch));
    assert(ev.get_str("mode"@) == Some(c.mode.wire()));
    assert(ev.get_str("owner"@) == c.owner);
}

/// A component that is put under the server's arbitration is so again on replay; of an
/// entity that had other authorities, what the event states is the same.
pub proof fn law_escalation_replays(
    e: Ent,
    o: Ent,
    eid: Seq<char>,
    comp: Seq<char>,
    owner: Option<Seq<char>>,
    reason: Seq<char>,
)
    ensures
        ({
            let now = arbitrated(e, comp, owner);
            let ev = escalation_event(eid, comp, owner, reason, now);
            &&& kind_of(ev) == "component_authority"@
            &&& ev_entity(ev) == eid
            &&& ent_replayed(e, "component_authority"@, ev) == now
            &&& ent_replayed(o, "component_authority"@, ev) == (Ent {
                version: now.version,
                ..o.ensured(comp).with_auth(comp, now.authority[comp])
            })
        }),
{
    lemma_event_keys();
    lemma_late_kinds();
    law_mode_names(AuthorityMode::ServerArbitrated);
    reveal_strlit("writer");
    reveal_strlit("owner");
    reveal_strlit("mode");
    reveal_strlit("reason");
    let now = arbitrated(e, comp, owner);
    let ev = escalation_event(eid, comp, owner, reason, now);
    assert(ev.get_str("kind"@) == Some("component_authority"@));
    assert(ev.get_str("entity"@) == Some(eid));
    assert(ev.get_str("comp"@) == Some(comp));
    assert(ev.get_u64("version"@) == Some(now.version));
    assert(ev.get_u64("authority_epoch"@) == Some(now.authority[comp].epoch));
    assert(ev.get_str("mode"@) == Some(AuthorityMode::ServerArbitrated.wire()));
    assert(ev.get_str("owner"@) == owner);
}

proof fn lemma_snapshot_ignores_components(a: Ent, b: Ent, m: Map<Seq<char>, Auth>)
    requires
        a.authority == b.authority,
    ensures
        a.snapshot_applied(authority_doc(m)).authority == b.snapshot_applied(
            authority_doc(m),
        ).authority,
{
    let d = authority_doc(m)->Obj_0;
    assert forall|k: Seq<char>| #[trigger] m.contains_key(k) implies a.snapshot_auth(d, k)
        == b.snapshot_auth(d, k) by {
        lemma_mode_of_doc(m[k]);
    }
    assert(a.snapshot_applied(authority_doc(m)).authority =~= b.snapshot_applied(
        authority_doc(m),
    ).authority);
}

proof fn lemma_mode_of_doc(a: Auth)
    ensures
        value_mode(auth_doc(a)) == Some(a.mode),
{
    lemma_event_keys();
    law_mode_names(a.mode);
    assert(auth_doc(a).get_str("mode"@) == Some(a.mode.wire()));
}

/// A step of a threshold transaction is replayed as it was taken: the record of it, and
/// with a commit the region and the authorities.
pub proof fn law_threshold_step_replays(e: Ent, p: Step, m: Map<Seq<char>, Auth>, writer: Seq<char>)
    requires
        p.tx.is_valid(),
        p.authority == authority_doc(m),
    ensures
        kind_of(step_event(p, writer)) == "threshold_"@ + p.tx.phase,
        ev_entity(step_event(p, writer)) == p.tx.eid,
        ent_replayed(e, "threshold_"@ + p.tx.phase, step_event(p, writer)) == stepped(e, p),
{
    lemma_event_keys();
    lemma_late_kinds();
    let ev = step_event(p, writer);
    let kind = "threshold_"@ + p.tx.phase;
    assert(ev.get_str("kind"@) == Some(kind));
    assert(ev.get_str("entity"@) == Some(p.tx.eid));
    assert(ev.get_u64("version"@) == Some(p.version));
    assert(ev.get_str("tx_id"@) == Some(p.tx.tx_id));
    assert(ev.get("from"@) == Some(p.tx.from));
    assert(ev.get("to"@) == Some(p.tx.to));
    assert(ev.get_u64("ts_ms"@) == Some(p.tx.ts_ms));
    assert(ev.get("authority"@) == Some(p.authority));
    reveal_strlit("threshold_");
    reveal_strlit("prepare");
    reveal_strlit("preload_ready");
    reveal_strlit("commit");
    reveal_strlit("adopt");
    reveal_strlit("abort");
    reveal_strlit("threshold_prepare");
    reveal_strlit("threshold_preload_ready");
    reveal_strlit("threshold_commit");
    reveal_strlit("threshold_adopt");
    reveal_strlit("threshold_abort");
    assert("threshold_"@ + "prepare"@ =~= "threshold_prepare"@);
    assert("threshold_"@ + "preload_ready"@ =~= "threshold_preload_ready"@);
    assert("threshold_"@ + "commit"@ =~= "threshold_commit"@);
    assert("threshold_"@ + "adopt"@ =~= "threshold_adopt"@);
    assert("threshold_"@ + "abort"@ =~= "threshold_abort"@);
    assert("prepare"@.len() == 7 && "preload_ready"@.len() == 13 && "commit"@.len() == 6
        && "adopt"@.len() == 5 && "abort"@.len() == 5);
    assert("adopt"@[1] == 'd' && "abort"@[1] == 'b');
    if p.tx.is_commit() {
        let to = match ev.get_str("to"@) {
            Some(to) => if to.len() > 0 {
                Ent { region: to, ..e }
            } else {
                e
            },
            None => e,
        };
        lemma_snapshot_ignores_components(p.tx.on(e), to, m);
    }
}

/// A grant of a failover or of a migration is replayed as it was applied.
pub proof fn law_grant_replays(e: Ent, g: Grant)
    ensures
        ev_entity(grant_doc(g)) == g.eid,
        granted(e, grant_doc(g)) == regranted(e, g),
{
    lemma_event_keys();
    let d = grant_doc(g);
    assert(d.get_str("entity"@) == Some(g.eid));
    assert(d.get("authority"@) == Some(g.authority));
    assert(d.get_u64("version"@) == Some(g.version));
}

/// A deletion is replayed as it was made: the entity is gone for good.
pub proof fn law_deletion_replays(st: Store, eid: Seq<char>, version: u64, writer: Seq<char>, resend: bool)
    ensures
        st.replayed(tombstone_event(eid, version, writer), resend) == (Store {
            tombstones: st.tombstones.insert(eid),
            entities: st.entities.remove(eid),
            forwarded: st.forwarded.remove(eid),
            ..st
        }),
{
    lemma_event_keys();
    lemma_kinds_differ();
    let ev = tombstone_event(eid, version, writer);
    assert(ev.get_str("kind"@) == Some("delete_tombstone"@));
    assert(ev.get_str("entity"@) == Some(eid));
}

/// What replay reads from the event of a departure.
pub proof fn lemma_departure_fields(d: Leave, s: State)
    requires
        d == s.departure_of(d.eid, d.target),
    ensures
        kind_of(d.event) == "mesh_out"@,
        ev_entity(d.event) == d.eid,
        departure_epoch(d.event) == d.authority_epoch,
        d.event.get_str("target"@) == Some(d.target),
        d.event.get("pos"@) == Some(s.entities[d.eid].pos.doc()),
        d.event.get("vel"@) == Some(s.entities[d.eid].vel.doc()),
        d.event.get("components"@) == Some(Doc::Obj(s.entities[d.eid].components)),
        "mesh_out"@ != "register"@,
        "mesh_out"@ != "delete_tombstone"@,
        "mesh_out"@ != "mesh_forwarded_fence"@,
        "mesh_out"@ != "failover_grant"@,
        "mesh_out"@ != "block_migration"@,
{
    lemma_event_keys();
    reveal_strlit("mesh_out");
    reveal_strlit("register");
    reveal_strlit("delete_tombstone");
    reveal_strlit("mesh_forwarded_fence");
    reveal_strlit("failover_grant");
    reveal_strlit("block_migration");
    assert("mesh_out"@.len() == 8 && "register"@.len() == 8 && "delete_tombstone"@.len() == 16
        && "mesh_forwarded_fence"@.len() == 20 && "failover_grant"@.len() == 14
        && "block_migration"@.len() == 15);
    assert("mesh_out"@[0] == 'm' && "register"@[0] == 'r');
    let ev = d.event;
    assert(ev.get_str("kind"@) == Some("mesh_out"@));
    assert(ev.get_str("entity"@) == Some(d.eid));
    assert(ev.get_u64("authority_epoch"@) == Some(d.authority_epoch));
    assert(ev.get_str("target"@) == Some(d.target));
    assert(ev.get("pos"@) == Some(s.entities[d.eid].pos.doc()));
    assert(ev.get("vel"@) == Some(s.entities[d.eid].vel.doc()));
    assert(ev.get("components"@) == Some(Doc::Obj(s.entities[d.eid].components)));
}

/// A departure is replayed as it was made: the entity is not here, the epoch under which
/// it left is on record, and until it is confirmed it is kept to be sent again.
pub proof fn law_departure_replays(s: State, st: Store, eid: Seq<char>, target: Seq<char>)
    ensures
        ({
            let d = s.departure_of(eid, target);
            st.replayed(d.event, true) == (Store {
                entities: st.entities.remove(eid),
                forwarded: st.forwarded.insert(
                    eid,
                    later_epoch(st.forwarded, eid, d.authority_epoch),
                ),
                pending: st.pending.insert(eid, d.event),
                ..st
            })
        }),
{
    lemma_departure_fields(s.departure_of(eid, target), s);
}

/// What is sent again after a restart is what was sent before it, but for the generation
/// of the sender.
pub proof fn law_departure_is_sent_again(s: State, eid: Seq<char>, target: Seq<char>)
    ensures
        ({
            let d = s.departure_of(eid, target);
            resent_frame(eid, d.event) == Doc::Obj(
                d.handoff->Obj_0.remove("source_durable_gen"@),
            )
        }),
{
    let d = s.departure_of(eid, target);
    lemma_event_keys();
    let a = resent_frame(eid, d.event)->Obj_0;
    let b = d.handoff->Obj_0.remove("source_durable_gen"@);
    assert(a =~= b);
}

/// A confirmation is replayed as it was recorded: nothing is sent again.
pub proof fn law_confirmation_replays(st: Store, eid: Seq<char>, resend: bool)
    ensures
        st.replayed(ack_event(eid), resend) == (Store {
            entities: st.entities.remove(eid),
            pending: st.pending.remove(eid),
            ..st
        }),
{
    lemma_event_keys();
    reveal_strlit("mesh_acked");
    reveal_strlit("mesh_out");
    reveal_strlit("register");
    reveal_strlit("delete_tombstone");
    reveal_strlit("mesh_forwarded_fence");
    reveal_strlit("failover_grant");
    reveal_strlit("block_migration");
    assert("mesh_acked"@.len() == 10 && "mesh_out"@.len() == 8 && "register"@.len() == 8
        && "delete_tombstone"@.len() == 16 && "mesh_forwarded_fence"@.len() == 20
        && "failover_grant"@.len() == 14 && "block_migration"@.len() == 15);
    let ev = ack_event(eid);
    assert(ev.get_str("kind"@) == Some("mesh_acked"@));
    assert(ev.get_str("entity"@) == Some(eid));
}

/// A reservation is replayed as it was made: the mark is past the block.
pub proof fn law_reservation_replays(st: Store, first: u64, count: u64, next: u64, resend: bool)
    ensures
        st.replayed(reserve_event(first, count, next), resend) == (Store {
            id_hwm: if st.id_hwm < next {
                next
            } else {
                st.id_hwm
            },
            ..st
        }),
{
    lemma_event_keys();
    lemma_kinds_differ();
    let ev = reserve_event(first, count, next);
    assert(ev.get_str("kind"@) == Some("reserve_entity_ids"@));
    assert(ev.get_u64("next_id"@) == Some(next));
}

/// A crossing to a neighbour loses nothing: the neighbour takes the entity as it left,
/// with its position, velocity and components, and what moves together is under the new
/// epoch and nobody's yet.
pub proof fn law_crossing_is_lossless(s: State, eid: Seq<char>, target: Seq<char>, region: Seq<char>)
    requires
        ({
            let e = s.entities[eid];
            &&& e.pos.x is Some && e.pos.y is Some && e.vel.x is Some && e.vel.y is Some
            &&& forall|k: Seq<char>|
                #[trigger] e.authority.contains_key(k) ==> e.authority[k].owner != Some(
                    Seq::<char>::empty(),
                )
        }),
    ensures
        ({
            let e = s.entities[eid];
            let d = s.departure_of(eid, target);
            let a = arrival(d.handoff, region);
            &&& a.pos == e.pos
            &&& a.vel == e.vel
            &&& a.components == e.components
            &&& a.region == region
            &&& forall|k: Seq<char>| #[trigger]
                e.island().contains(k) ==> a.authority.contains_key(k) && a.authority[k].epoch
                    == d.authority_epoch && a.authority[k].owner is None
            &&& forall|k: Seq<char>|
                e.authority.contains_key(k) && !e.island().contains(k) ==> a.authority.contains_key(
                    k,
                ) && #[trigger] a.authority[k] == e.authority[k]
        }),
{
    lemma_event_keys();
    let e = s.entities[eid];
    let d = s.departure_of(eid, target);
    let f = d.handoff;
    law_point_round_trip(e.pos);
    law_point_round_trip(e.vel);
    assert(f.get("pos"@) == Some(e.pos.doc()));
    assert(f.get("vel"@) == Some(e.vel.doc()));
    assert(f.get("components"@) == Some(Doc::Obj(e.components)));
    assert(f.get_u64("authority_epoch"@) == Some(d.authority_epoch));
    let m = departing_authority(e, d.authority_epoch);
    assert(f.get("authority"@) == Some(authority_doc(m)));
    let base = newborn(e.pos, e.vel, e.components, region, Some(d.authority_epoch), None);
    assert forall|k: Seq<char>| #[trigger] m.contains_key(k) implies m[k].owner != Some(
        Seq::<char>::empty(),
    ) by {}
    law_snapshot_round_trip(base, m);
    let a = arrival(f, region);
    assert(a == base.snapshot_applied(authority_doc(m)));
}

}
