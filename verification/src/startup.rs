//! Starting a broker: its settings, and the world that a log gives back.

use vstd::prelude::*;
use vstd::string::*;
use vstd::utf8::encode_utf8;
use crate::claims::PeerClaims;
use crate::crc::{crc32, crc32_ieee};
use crate::doc::{json_text, Doc, Json, Num};
use crate::entity::{Ent, Entity};
use crate::float::Float;
use crate::json::{map_doc, map_json, opt_text_doc, or_null, text_or};
use crate::order::sorted;
use crate::partition::{lines, Cut};
use crate::recovery::{apply_wal_events, store_of, ReplayStore, Store};
use crate::sight::sorted_keys;
use crate::state::{opt_grid, Grid, Metrics, Parked, PendingMesh, ServerState, State, WalStatus};
use crate::strmap::{texts, Dup, StrMap, StrSet};
use crate::text::{opt_string, u64_text};
use crate::wal::{
    empty_report, log_events, log_report, read_wal_events, total_span, Report, WalReadReport,
};

verus! {

broadcast use {crate::doc::group_json, crate::strmap::group_map};

/// What a broker is started with.
pub struct Settings {
    pub lease_ttl_ms: u64,
    pub threshold_ttl_ms: u64,
    /// The size past which the log is rewritten.
    pub wal_compact_bytes: u64,
    /// Whether every write to the log is to fail.
    pub wal_fail: bool,
    pub mesh_ack_drop: bool,
    pub mesh_adopt_drop: bool,
    pub boundaries: Vec<Cut>,
    pub grid2d: Option<Grid>,
    pub connect_auth_token: Option<String>,
    pub connect_auth_claims: StrMap<PeerClaims>,
    /// Whether the broker starts draining, and ends once it is drained.
    pub draining: bool,
    pub drain_exit: bool,
}

impl State {
    /// The state of a broker that has just been started with these settings.
    pub open spec fn is_fresh(self, c: Settings) -> bool {
        self == (State {
            entities: Map::empty(),
            workers: Map::empty(),
            region_worker: Map::empty(),
            region_expires: Map::empty(),
            lease_ttl_ms: c.lease_ttl_ms,
            standbys: Seq::empty(),
            orphaned_regions: Seq::empty(),
            wal: WalStatus {
                attached: false,
                bytes: 0,
                compact_bytes: c.wal_compact_bytes,
                snapshot_seen: false,
                degraded: c.wal_fail,
                fail_inject: c.wal_fail,
                durable_gen: 0,
                pending_gen: 0,
            },
            pending_updates: Seq::empty(),
            pending_handoffs: Seq::empty(),
            pending_remote_handoffs: Seq::empty(),
            pending_failovers: Seq::empty(),
            pending_block_migrations: Seq::empty(),
            metrics: Metrics {
                handoffs: 0,
                mesh_handoffs: 0,
                applies: 0,
                failovers: 0,
                wal_compactions: 0,
                fenced_stale_handoffs: 0,
            },
            rejected: Seq::empty(),
            pending_commands: Map::empty(),
            entity_id_reservations: 0,
            flags: Map::empty(),
            worker_load: Map::empty(),
            boundary: if c.boundaries@.len() > 0 {
                c.boundaries@[0].at@
            } else {
                0
            },
            boundaries: lines(c.boundaries@),
            grid2d: opt_grid(c.grid2d),
            splits: Map::empty(),
            zone_topology_rev: 0,
            rebalance_jobs: Seq::empty(),
            event_outbox: Seq::empty(),
            load_level: 0,
            connect_auth_token: opt_string(c.connect_auth_token),
            connect_auth_claims: c.connect_auth_claims@,
            mesh: Set::empty(),
            pending_mesh: Map::empty(),
            mesh_forwarded_epoch: Map::empty(),
            mesh_regions: Set::empty(),
            mesh_ack_drop: c.mesh_ack_drop,
            mesh_adopt_drop: c.mesh_adopt_drop,
            region_lease_epoch: Map::empty(),
            my_region: Seq::empty(),
            superseded_regions: Set::empty(),
            deleted_entities: Set::empty(),
            pending_handoff_intent: Map::empty(),
            threshold_ttl_ms: c.threshold_ttl_ms,
            ghosts: Map::empty(),
            draining: c.draining,
            drain_exit: c.drain_exit,
            monitor_last_tick_ms: 0,
            outbox: Seq::empty(),
            log_queue: Seq::empty(),
        })
    }
}

impl ServerState {
    /// A broker that has just been started.
    pub fn new(c: Settings) -> (r: ServerState)
        ensures
            r@.is_fresh(c),
    {
        let boundary = if c.boundaries.len() > 0 {
            c.boundaries[0].at.dup()
        } else {
            Float::zero()
        };
        let ghost c0 = c;
        let s = ServerState {
            entities: StrMap::new(),
            workers: StrMap::new(),
            region_worker: StrMap::new(),
            region_expires: StrMap::new(),
            lease_ttl_ms: c.lease_ttl_ms,
            standbys: Vec::new(),
            orphaned_regions: Vec::new(),
            wal: WalStatus {
                attached: false,
                bytes: 0,
                compact_bytes: c.wal_compact_bytes,
                snapshot_seen: false,
                degraded: c.wal_fail,
                fail_inject: c.wal_fail,
                durable_gen: 0,
                pending_gen: 0,
            },
            pending_updates: Vec::new(),
            pending_handoffs: Vec::new(),
            pending_remote_handoffs: Vec::new(),
            pending_failovers: Vec::new(),
            pending_block_migrations: Vec::new(),
            metrics: Metrics {
                handoffs: 0,
                mesh_handoffs: 0,
                applies: 0,
                failovers: 0,
                wal_compactions: 0,
                fenced_stale_handoffs: 0,
            },
            rejected: Vec::new(),
            pending_commands: StrMap::new(),
            entity_id_reservations: 0,
            flags: StrMap::new(),
            worker_load: StrMap::new(),
            boundary,
            boundaries: c.boundaries,
            grid2d: c.grid2d,
            splits: StrMap::new(),
            zone_topology_rev: 0,
            rebalance_jobs: Vec::new(),
            event_outbox: Vec::new(),
            load_level: 0,
            connect_auth_token: c.connect_auth_token,
            connect_auth_claims: c.connect_auth_claims,
            mesh: StrSet::new(),
            pending_mesh: StrMap::new(),
            mesh_forwarded_epoch: StrMap::new(),
            mesh_regions: StrSet::new(),
            mesh_ack_drop: c.mesh_ack_drop,
            mesh_adopt_drop: c.mesh_adopt_drop,
            region_lease_epoch: StrMap::new(),
            my_region: String::new(),
            superseded_regions: StrSet::new(),
            deleted_entities: StrSet::new(),
            pending_handoff_intent: StrMap::new(),
            threshold_ttl_ms: c.threshold_ttl_ms,
            ghosts: StrMap::new(),
            draining: c.draining,
            drain_exit: c.drain_exit,
            monitor_last_tick_ms: 0,
            outbox: Vec::new(),
            log_queue: Vec::new(),
        };
        proof {
            let v = s@;
            assert(v.standbys =~= Seq::empty());
            assert(v.orphaned_regions =~= Seq::empty());
            assert(v.pending_updates =~= Seq::empty());
            assert(v.pending_handoffs =~= Seq::empty());
            assert(v.pending_remote_handoffs =~= Seq::empty());
            assert(v.pending_failovers =~= Seq::empty());
            assert(v.pending_block_migrations =~= Seq::empty());
            assert(v.rejected =~= Seq::empty());
            assert(v.rebalance_jobs =~= Seq::empty());
            assert(v.event_outbox =~= Seq::empty());
            assert(v.outbox =~= Seq::empty());
            assert(v.log_queue =~= Seq::empty());
            assert(v.my_region =~= Seq::empty());
        }
        s
    }
}

/// What a log gives back, and what reading it found.
pub struct Recovered {
    pub store: ReplayStore,
    pub report: WalReadReport,
}

/// The store of a log: nothing where the log must not be served.
pub open spec fn recovered_store(
    lines: Option<Seq<Seq<char>>>,
    off: Option<u64>,
    resend: bool,
) -> Store {
    match lines {
        Some(l) => if log_report(l, off).error is Some {
            Store::empty()
        } else {
            store_of(log_events(l, off), resend)
        },
        None => Store::empty(),
    }
}

/// An optional list of lines by its views.
pub open spec fn opt_lines(o: Option<&Vec<String>>) -> Option<Seq<Seq<char>>> {
    match o {
        Some(l) => Some(texts(l@)),
        None => None,
    }
}

/// Restores the store from the lines of a log. A log that must not be served gives
/// back nothing. Where `resend` is off, unconfirmed departures are not sent again.
pub fn recover_from_wal_report(
    raw_lines: Option<&Vec<String>>,
    up_to_offset: Option<u64>,
    resend: bool,
) -> (r: Recovered)
    requires
        match raw_lines {
            Some(l) => total_span(texts(l@)) <= u64::MAX,
            None => true,
        },
    ensures
        r.store@ == recovered_store(opt_lines(raw_lines), up_to_offset, resend),
        r.report@ == match raw_lines {
            Some(l) => log_report(texts(l@), up_to_offset),
            None => empty_report(1, None),
        },
{
    let read = read_wal_events(raw_lines, up_to_offset);
    let report = read.report;
    if report.error.is_some() {
        let store = ReplayStore {
            entities: StrMap::new(),
            tombstones: StrSet::new(),
            last_partition: None,
            recovered_pending: StrMap::new(),
            mesh_forwarded_epoch: StrMap::new(),
            recovered_id_hwm: 0,
        };
        proof {
            assert(store@ =~= Store::empty());
        }
        return Recovered { store, report };
    }
    let store = apply_wal_events(&read.events, resend);
    proof {
        if raw_lines is None {
            assert(store_of(Seq::empty(), resend) =~= Store::empty());
        }
    }
    Recovered { store, report }
}

/// The reason that a log cannot be cut back.
pub open spec fn prefix_error(prefix: nat, len: nat) -> Seq<char> {
    "recoverable WAL prefix "@ + crate::text::decimal(prefix) + " exceeds on-disk length "@
        + crate::text::decimal(len)
}

/// To which length a log with a corrupt tail is cut back: none where nothing is to be
/// cut, and an error where the file is shorter than its own good part.
pub fn truncate_wal_tail_to_recoverable_prefix(report: &WalReadReport, current_len: u64) -> (r: Result<
    Option<u64>,
    String,
>)
    ensures
        match r {
            Ok(Some(n)) => {
                &&& report.truncated_tail_bytes > 0
                &&& n == report.recoverable_prefix_bytes
                &&& n < current_len
            },
            Ok(None) => report.truncated_tail_bytes == 0 || report.recoverable_prefix_bytes
                == current_len,
            Err(e) => {
                &&& report.truncated_tail_bytes > 0
                &&& report.recoverable_prefix_bytes > current_len
                &&& e@ == prefix_error(
                    report.recoverable_prefix_bytes as nat,
                    current_len as nat,
                )
            },
        },
{
    if report.truncated_tail_bytes == 0 {
        return Ok(None);
    }
    let prefix: u64 = report.recoverable_prefix_bytes;
    if prefix > current_len {
        let mut e = "recoverable WAL prefix ".to_owned();
        e.append(u64_text(prefix).as_str());
        e.append(" exceeds on-disk length ");
        e.append(u64_text(current_len).as_str());
        return Err(e);
    }
    if prefix == current_len {
        return Ok(None);
    }
    Ok(Some(prefix))
}

/// The message to a neighbour that a recovered departure becomes.
pub open spec fn resent_frame(eid: Seq<char>, p: Doc) -> Doc {
    Doc::Obj(
        map![
            "op"@ => Doc::Str("MeshHandoff"@),
            "entity"@ => Doc::Str(eid),
            "target"@ => Doc::Str(text_or(p.get_str("target"@), ""@)),
            "pos"@ => or_null(p.get("pos"@)),
            "vel"@ => or_null(p.get("vel"@)),
            "authority_epoch"@ => or_null(p.get("authority_epoch"@)),
            "authority"@ => or_null(p.get("authority"@)),
            "src_region"@ => or_null(p.get("src_region"@)),
            "lease_epoch"@ => or_null(p.get("lease_epoch"@)),
            "components"@ => or_null(p.get("components"@))],
    )
}

/// A recovered departure as it waits to be sent again.
pub open spec fn resent(eid: Seq<char>, p: Doc, now_ms: u64) -> Parked {
    Parked {
        frame: resent_frame(eid, p),
        sent_ms: now_ms,
        target: text_or(p.get_str("target"@), ""@),
    }
}

impl State {
    /// The state with what a log gave back.
    pub open spec fn recovered(self, store: Store, now_ms: u64) -> State {
        State {
            entities: store.entities,
            deleted_entities: store.tombstones,
            mesh_forwarded_epoch: store.forwarded,
            entity_id_reservations: store.id_hwm,
            pending_mesh: Map::new(
                |k: Seq<char>| self.pending_mesh.contains_key(k) || store.pending.contains_key(k),
                |k: Seq<char>|
                    if store.pending.contains_key(k) {
                        resent(k, store.pending[k], now_ms)
                    } else {
                        self.pending_mesh[k]
                    },
            ),
            ..self
        }
    }
}

fn resend_frame(eid: &str, p: &Json) -> (r: Json)
    ensures
        r@ == resent_frame(eid@, p@),
{
    StrMap::new().with("op", Json::str("MeshHandoff")).with("entity", Json::str(eid)).with(
        "target",
        Json::str(p.str_or("target", "")),
    ).with("pos", p.member("pos")).with("vel", p.member("vel")).with(
        "authority_epoch",
        p.member("authority_epoch"),
    ).with("authority", p.member("authority")).with("src_region", p.member("src_region")).with(
        "lease_epoch",
        p.member("lease_epoch"),
    ).with("components", p.member("components")).done()
}

/// Takes over what a log gave back: the world, what was deleted, what departed and is
/// to be sent again, and the mark of reserved numbers.
pub fn restore(s: &mut ServerState, store: ReplayStore, now_ms: u64)
    ensures
        final(s)@ == old(s)@.recovered(store@, now_ms),
{
    let ghost before = s@;
    let ghost st = store@;
    s.entities = store.entities;
    s.deleted_entities = store.tombstones;
    s.mesh_forwarded_epoch = store.mesh_forwarded_epoch;
    s.entity_id_reservations = store.recovered_id_hwm;
    let pending = store.recovered_pending;
    let n: usize = pending.len();
    let ghost order = pending.order();
    let mut i: usize = 0;
    while i < n
        invariant
            i <= n == order.len(),
            order == pending.order(),
            pending@ == st.pending,
            s@ == (State { pending_mesh: s@.pending_mesh, ..before.recovered(st, now_ms) }),
            forall|k: Seq<char>|
                #[trigger] s@.pending_mesh.contains_key(k) <==> before.pending_mesh.contains_key(k)
                    || order.take(i as int).contains(k),
            forall|k: Seq<char>|
                #[trigger] s@.pending_mesh.contains_key(k) ==> s@.pending_mesh[k] == if order.take(
                    i as int,
                ).contains(k) {
                    resent(k, st.pending[k], now_ms)
                } else {
                    before.pending_mesh[k]
                },
        decreases n - i,
    {
        let ghost seen = order.take(i as int);
        let eid = pending.key_at(i);
        let p = pending.value_at(i);
        s.pending_mesh.insert(
            eid,
            PendingMesh {
                frame: resend_frame(eid, p),
                sent_ms: now_ms,
                target: p.str_or("target", "").to_owned(),
            },
        );
        i = i + 1;
        proof {
            assert(order.take(i as int) =~= seen.push(order[i - 1]));
            assert forall|k: Seq<char>| #[trigger] order.take(i as int).contains(k) <==> (
            seen.contains(k) || k == order[i - 1]) by {
                crate::json::lemma_push_contains(seen, order[i - 1], k);
            }
        }
    }
    proof {
        assert(order.take(n as int) =~= order);
        assert forall|k: Seq<char>| order.contains(k) == st.pending.contains_key(k) by {
            assert(order.to_set().contains(k) == order.contains(k));
        }
        assert(s@.pending_mesh =~= before.recovered(st, now_ms).pending_mesh);
    }
}

/// An entity as it is fingerprinted.
pub open spec fn canon(eid: Seq<char>, e: Ent) -> Doc {
    Doc::Obj(
        map![
            "id"@ => Doc::Str(eid),
            "pos"@ => e.pos.doc(),
            "vel"@ => e.vel.doc(),
            "region"@ => Doc::Str(e.region),
            "version"@ => Doc::Num(Num::Pos(e.version)),
            "components"@ => Doc::Obj(e.components)],
    )
}

/// The fingerprint of an entity.
pub open spec fn entity_hash(eid: Seq<char>, e: Ent) -> u64 {
    ((crc32(encode_utf8(json_text(canon(eid, e)))) as u64) << 1) | 1
}

/// The fingerprint of the entities with these names.
pub open spec fn content_hash(m: Map<Seq<char>, Ent>, names: Seq<Seq<char>>) -> u64
    decreases names.len(),
{
    if names.len() == 0 {
        0
    } else {
        content_hash(m, names.drop_last()) ^ entity_hash(names.last(), m[names.last()])
    }
}

/// The fingerprint of a world.
pub fn store_content_hash(store: &StrMap<Entity>) -> (r: u64)
    ensures
        r == content_hash(store@, sorted(store@.dom())),
{
    let ids = sorted_keys(store);
    let ghost all = texts(ids@);
    let mut acc: u64 = 0;
    let mut i: usize = 0;
    proof {
        assert(all.take(0) =~= Seq::empty());
    }
    while i < ids.len()
        invariant
            i <= ids.len(),
            all == texts(ids@),
            all.to_set() == store@.dom(),
            acc == content_hash(store@, all.take(i as int)),
        decreases ids.len() - i,
    {
        let eid = ids[i].as_str();
        proof {
            assert(all.take(i + 1).drop_last() =~= all.take(i as int));
            assert(all.take(i + 1).last() == eid@);
            assert(all[i as int] == eid@);
            assert(all.to_set().contains(eid@));
        }
        if let Some(e) = store.get(eid) {
            let j = StrMap::new().with("id", Json::str(eid)).with("pos", e.pos.json()).with(
                "vel",
                e.vel.json(),
            ).with("region", Json::str(e.region.as_str())).with("version", Json::u64(e.version)).with(
                "components",
                e.components.dup().done(),
            ).done();
            let text = j.text();
            let h: u32 = crc32_ieee(text.as_str().as_bytes());
            acc = acc ^ (((h as u64) << 1) | 1);
        }
        i = i + 1;
    }
    proof {
        assert(all.take(i as int) =~= all);
    }
    acc
}

proof fn lemma_hash_remove(m: Map<Seq<char>, Ent>, names: Seq<Seq<char>>, i: int)
    requires
        0 <= i < names.len(),
    ensures
        content_hash(m, names) == content_hash(m, names.remove(i)) ^ entity_hash(
            names[i],
            m[names[i]],
        ),
    decreases names.len(),
{
    let k = names[i];
    let last = names.last();
    if i == names.len() - 1 {
        assert(names.remove(i) =~= names.drop_last());
    } else {
        let d = names.drop_last();
        lemma_hash_remove(m, d, i);
        assert(names.remove(i).drop_last() =~= d.remove(i));
        assert(names.remove(i).last() == last);
        let a = content_hash(m, d.remove(i));
        let b = entity_hash(k, m[k]);
        let c = entity_hash(last, m[last]);
        assert((a ^ b) ^ c == (a ^ c) ^ b) by (bit_vector);
    }
}

/// The fingerprint does not depend on the order in which a world is walked.
pub proof fn law_hash_has_no_order(
    m: Map<Seq<char>, Ent>,
    p: Seq<Seq<char>>,
    q: Seq<Seq<char>>,
)
    requires
        p.no_duplicates(),
        q.no_duplicates(),
        p.to_set() == q.to_set(),
    ensures
        content_hash(m, p) == content_hash(m, q),
    decreases p.len(),
{
    p.unique_seq_to_set();
    q.unique_seq_to_set();
    if p.len() > 0 {
        let k = p.last();
        assert(p.to_set().contains(k));
        assert(q.to_set().contains(k));
        let i = choose|i: int| 0 <= i < q.len() && q[i] == k;
        lemma_hash_remove(m, q, i);
        let a = p.drop_last();
        let b = q.remove(i);
        assert(b.no_duplicates()) by {
            assert forall|x: int, y: int| 0 <= x < b.len() && 0 <= y < b.len() && x != y implies b[x]
                != b[y] by {
                let x2 = if x < i { x } else { x + 1 };
                let y2 = if y < i { y } else { y + 1 };
                assert(b[x] == q[x2] && b[y] == q[y2]);
            }
        }
        assert forall|t: Seq<char>| a.to_set().contains(t) == b.to_set().contains(t) by {
            assert(p.to_set().contains(t) == p.contains(t));
            assert(q.to_set().contains(t) == q.contains(t));
            assert(a.to_set().contains(t) == a.contains(t));
            assert(b.to_set().contains(t) == b.contains(t));
            if a.contains(t) {
                let x = choose|x: int| 0 <= x < a.len() && a[x] == t;
                assert(p[x] == t);
                assert(p.contains(t));
                assert(p[p.len() - 1] == k);
                assert(t != k);
                let y = choose|y: int| 0 <= y < q.len() && q[y] == t;
                let y2 = if y < i { y } else { y - 1 };
                assert(b[y2] == t);
            }
            if b.contains(t) {
                let y = choose|y: int| 0 <= y < b.len() && b[y] == t;
                let y2 = if y < i { y } else { y + 1 };
                assert(q[y2] == t);
                assert(q.contains(t));
                assert(t != k);
                let x = choose|x: int| 0 <= x < p.len() && p[x] == t;
                assert(a[x] == t);
            }
        }
        assert(a.to_set() =~= b.to_set());
        law_hash_has_no_order(m, a, b);
    }
}

/// The hexadecimal digit of a number below sixteen.
pub open spec fn hex_digit(d: nat) -> char {
    if d < 10 {
        crate::text::digit(d)
    } else if d == 10 {
        'a'
    } else if d == 11 {
        'b'
    } else if d == 12 {
        'c'
    } else if d == 13 {
        'd'
    } else if d == 14 {
        'e'
    } else {
        'f'
    }
}

/// The last `n` hexadecimal digits of a number.
pub open spec fn hex(x: nat, n: nat) -> Seq<char>
    decreases n,
{
    if n == 0 {
        Seq::empty()
    } else {
        hex(x / 16, (n - 1) as nat).push(hex_digit(x % 16))
    }
}

fn hex_text(x: u64, n: u32) -> (r: String)
    ensures
        r@ == hex(x as nat, n as nat),
    decreases n,
{
    if n == 0 {
        let r = String::new();
        proof {
            assert(r@ =~= Seq::empty());
        }
        return r;
    }
    let mut r = hex_text(x / 16, n - 1);
    let d: u64 = x % 16;
    let c: char = if d == 0 {
        '0'
    } else if d == 1 {
        '1'
    } else if d == 2 {
        '2'
    } else if d == 3 {
        '3'
    } else if d == 4 {
        '4'
    } else if d == 5 {
        '5'
    } else if d == 6 {
        '6'
    } else if d == 7 {
        '7'
    } else if d == 8 {
        '8'
    } else if d == 9 {
        '9'
    } else if d == 10 {
        'a'
    } else if d == 11 {
        'b'
    } else if d == 12 {
        'c'
    } else if d == 13 {
        'd'
    } else if d == 14 {
        'e'
    } else {
        'f'
    };
    r.push(c);
    r
}

/// What a trial of a restore reports.
pub open spec fn dry_run_doc(path: Seq<char>, m: Map<Seq<char>, Ent>, r: Report) -> Doc {
    Doc::Obj(
        map![
            "dry_run"@ => Doc::Bool(true),
            "wal"@ => Doc::Str(path),
            "entity_count"@ => Doc::Num(Num::Pos(m.dom().len() as u64)),
            "store_hash"@ => Doc::Str(hex(content_hash(m, sorted(m.dom())) as nat, 16)),
            "wal_version"@ => Doc::Num(Num::Pos(r.wal_version)),
            "selected_event_count"@ => Doc::Num(Num::Pos(r.selected_event_count as u64)),
            "decoded_record_count"@ => Doc::Num(Num::Pos(r.decoded_record_count as u64)),
            "corrupt_tail_record_count"@ => Doc::Num(Num::Pos(r.corrupt_tail_record_count as u64)),
            "truncated_tail_bytes"@ => Doc::Num(Num::Pos(r.truncated_tail_bytes as u64)),
            "recoverable_prefix_bytes"@ => Doc::Num(Num::Pos(r.recoverable_prefix_bytes as u64)),
            "unknown_kind_count"@ => Doc::Num(Num::Pos(r.unknown_kind_count as u64)),
            "kind_counts"@ => map_doc::<u64>(r.kind_counts),
            "unknown_kinds"@ => map_doc::<u64>(r.unknown_kinds),
            "error"@ => opt_text_doc(r.error)],
    )
}

/// Reports a trial of a restore.
pub fn dry_run_report(path: &str, r: &Recovered) -> (j: Json)
    ensures
        j@ == dry_run_doc(path@, r.store@.entities, r.report@),
{
    let hash: u64 = store_content_hash(&r.store.entities);
    let w = &r.report;
    StrMap::new().with("dry_run", Json::Bool(true)).with("wal", Json::str(path)).with(
        "entity_count",
        Json::u64(r.store.entities.len() as u64),
    ).with("store_hash", Json::Str(hex_text(hash, 16))).with("wal_version", Json::u64(w.wal_version)).with(
        "selected_event_count",
        Json::u64(w.selected_event_count),
    ).with("decoded_record_count", Json::u64(w.decoded_record_count)).with(
        "corrupt_tail_record_count",
        Json::u64(w.corrupt_tail_record_count),
    ).with("truncated_tail_bytes", Json::u64(w.truncated_tail_bytes)).with(
        "recoverable_prefix_bytes",
        Json::u64(w.recoverable_prefix_bytes),
    ).with("unknown_kind_count", Json::u64(w.unknown_kind_count)).with(
        "kind_counts",
        map_json(&w.kind_counts),
    ).with("unknown_kinds", map_json(&w.unknown_kinds)).with("error", Json::opt_str(&w.error)).done()
}

/// Fail closed: a log with damage before a good record, or of a version that is not
/// understood, gives back nothing.
pub proof fn law_damaged_log_gives_nothing(lines: Seq<Seq<char>>, off: Option<u64>, resend: bool)
    requires
        log_report(lines, off).error is Some,
    ensures
        recovered_store(Some(lines), off, resend) == Store::empty(),
{
}

}
