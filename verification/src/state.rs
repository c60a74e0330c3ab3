//! The broker's state, and what its parts do to each other.

use vstd::prelude::*;
use vstd::string::*;
use crate::claims::{Claims, PeerClaims, PeerRole};
use crate::doc::{docs, Doc, Json};
use crate::entity::{Ent, Entity};
use crate::float::{opt_bits, Float, Point, Vec2};
use crate::partition::{lines, Cut, Line, Splits};
use crate::strmap::{texts, StrMap, StrSet};
use crate::text::opt_string;

verus! {

broadcast use crate::doc::group_json;

/// A connected peer.
pub struct Worker {
    pub region: String,
    pub role: PeerRole,
    pub attributes: StrSet,
    /// The entities that the peer has been shown.
    pub view: StrSet,
    /// The epoch under which the peer was last granted `entity:component`.
    pub authority_epochs: StrMap<u64>,
    /// The area that the peer asked to see.
    pub aoi_center: Option<Point>,
    pub aoi_radius: Option<Float>,
    pub fidelity_full_radius: Option<Float>,
    pub fidelity_coarse_rate: u64,
    pub fidelity_coarse_grid: Float,
    /// How many coarse updates of `entity:component` the peer was due.
    pub fidelity_seq: StrMap<u64>,
    pub ingress_rejected: u64,
}

/// A `Worker` by its views.
#[verifier::ext_equal]
pub ghost struct Peer {
    pub region: Seq<char>,
    pub role: PeerRole,
    pub attributes: Set<Seq<char>>,
    pub view: Set<Seq<char>>,
    pub authority_epochs: Map<Seq<char>, u64>,
    pub aoi_center: Option<Vec2>,
    pub aoi_radius: Option<u64>,
    pub full_radius: Option<u64>,
    pub coarse_rate: u64,
    pub coarse_grid: u64,
    pub fidelity_seq: Map<Seq<char>, u64>,
    pub ingress_rejected: u64,
}

/// An optional point by its bits.
pub open spec fn opt_point(o: Option<Point>) -> Option<Vec2> {
    match o {
        Some(p) => Some(p@),
        None => None,
    }
}

impl View for Worker {
    type V = Peer;

    open spec fn view(&self) -> Peer {
        Peer {
            region: self.region@,
            role: self.role,
            attributes: self.attributes@,
            view: self.view@,
            authority_epochs: self.authority_epochs@,
            aoi_center: opt_point(self.aoi_center),
            aoi_radius: opt_bits(self.aoi_radius),
            full_radius: opt_bits(self.fidelity_full_radius),
            coarse_rate: self.fidelity_coarse_rate,
            coarse_grid: self.fidelity_coarse_grid@,
            fidelity_seq: self.fidelity_seq@,
            ingress_rejected: self.ingress_rejected,
        }
    }
}

/// What the broker sends: a message to a peer, or to the broker of a neighbour
/// region.
pub enum Out {
    Peer { wid: String, msg: Json },
    Mesh { region: String, msg: Json },
}

/// An `Out` by its views.
pub ghost enum Sent {
    Peer { wid: Seq<char>, msg: Doc },
    Mesh { region: Seq<char>, msg: Doc },
}

impl View for Out {
    type V = Sent;

    open spec fn view(&self) -> Sent {
        match self {
            Out::Peer { wid, msg } => Sent::Peer { wid: wid@, msg: msg@ },
            Out::Mesh { region, msg } => Sent::Mesh { region: region@, msg: msg@ },
        }
    }
}

/// A mirror of a neighbour's entity near the border. It can be seen and not
/// written.
pub struct GhostEntity {
    pub pos: Point,
    pub vel: Point,
    pub components: StrMap<Json>,
    /// The region that holds the authority.
    pub owner_region: String,
    pub last_seen_ms: u64,
}

/// A `GhostEntity` by its views.
#[verifier::ext_equal]
pub ghost struct Mirror {
    pub pos: Vec2,
    pub vel: Vec2,
    pub components: Map<Seq<char>, Doc>,
    pub owner_region: Seq<char>,
    pub last_seen_ms: u64,
}

impl View for GhostEntity {
    type V = Mirror;

    open spec fn view(&self) -> Mirror {
        Mirror {
            pos: self.pos@,
            vel: self.vel@,
            components: self.components@,
            owner_region: self.owner_region@,
            last_seen_ms: self.last_seen_ms,
        }
    }
}

/// A component write that the log has and that is not applied yet.
pub struct PreparedUpdate {
    pub gen: u64,
    pub eid: String,
    pub comp: String,
    pub value: Json,
    pub version: u64,
    pub writer: String,
}

/// A `PreparedUpdate` by its views.
#[verifier::ext_equal]
pub ghost struct Upd {
    pub gen: u64,
    pub eid: Seq<char>,
    pub comp: Seq<char>,
    pub value: Doc,
    pub version: u64,
    pub writer: Seq<char>,
}

impl View for PreparedUpdate {
    type V = Upd;

    open spec fn view(&self) -> Upd {
        Upd {
            gen: self.gen,
            eid: self.eid@,
            comp: self.comp@,
            value: self.value@,
            version: self.version,
            writer: self.writer@,
        }
    }
}

/// A transfer between two regions of this broker that the log has and that is not
/// applied yet.
pub struct PreparedHandoff {
    pub gen: u64,
    pub eid: String,
    pub from: String,
    pub to: String,
    /// Where the transfer puts the entity; without it the entity stays where it is.
    pub pos: Option<Point>,
    pub version: u64,
    pub authority_epoch: u64,
    pub authority: Json,
    pub moved_comps: Vec<String>,
    pub old_wid: Option<String>,
    pub new_wid: Option<String>,
    pub lease_epoch: Option<u64>,
    pub reason: String,
}

/// A `PreparedHandoff` by its views.
#[verifier::ext_equal]
pub ghost struct Hand {
    pub gen: u64,
    pub eid: Seq<char>,
    pub from: Seq<char>,
    pub to: Seq<char>,
    pub pos: Option<Vec2>,
    pub version: u64,
    pub authority_epoch: u64,
    pub authority: Doc,
    pub moved_comps: Seq<Seq<char>>,
    pub old_wid: Option<Seq<char>>,
    pub new_wid: Option<Seq<char>>,
    pub lease_epoch: Option<u64>,
    pub reason: Seq<char>,
}

impl View for PreparedHandoff {
    type V = Hand;

    open spec fn view(&self) -> Hand {
        Hand {
            gen: self.gen,
            eid: self.eid@,
            from: self.from@,
            to: self.to@,
            pos: opt_point(self.pos),
            version: self.version,
            authority_epoch: self.authority_epoch,
            authority: self.authority@,
            moved_comps: texts(self.moved_comps@),
            old_wid: opt_string(self.old_wid),
            new_wid: opt_string(self.new_wid),
            lease_epoch: self.lease_epoch,
            reason: self.reason@,
        }
    }
}

/// A border crossing to a neighbour broker that waits for the writes before it.
pub struct PendingRemoteHandoff {
    pub eid: String,
    pub target: String,
}

impl View for PendingRemoteHandoff {
    type V = (Seq<char>, Seq<char>);

    open spec fn view(&self) -> (Seq<char>, Seq<char>) {
        (self.eid@, self.target@)
    }
}

/// The authority over one entity that goes to another owner.
pub struct PreparedGrant {
    pub eid: String,
    pub version: u64,
    pub authority_epoch: u64,
    pub authority: Json,
    pub moved_comps: Vec<String>,
}

/// A `PreparedGrant` by its views.
#[verifier::ext_equal]
pub ghost struct Grant {
    pub eid: Seq<char>,
    pub version: u64,
    pub authority_epoch: u64,
    pub authority: Doc,
    pub moved_comps: Seq<Seq<char>>,
}

impl View for PreparedGrant {
    type V = Grant;

    open spec fn view(&self) -> Grant {
        Grant {
            eid: self.eid@,
            version: self.version,
            authority_epoch: self.authority_epoch,
            authority: self.authority@,
            moved_comps: texts(self.moved_comps@),
        }
    }
}

/// Some grants by their views.
pub open spec fn grants(s: Seq<PreparedGrant>) -> Seq<Grant> {
    s.map_values(|g: PreparedGrant| g@)
}

/// A region that goes to a standby, which the log has and that is not applied yet.
pub struct PreparedFailover {
    pub gen: u64,
    pub region: String,
    pub old_wid: Option<String>,
    pub new_wid: String,
    pub until_ms: u64,
    pub grants: Vec<PreparedGrant>,
}

/// A `PreparedFailover` by its views.
#[verifier::ext_equal]
pub ghost struct Failover {
    pub gen: u64,
    pub region: Seq<char>,
    pub old_wid: Option<Seq<char>>,
    pub new_wid: Seq<char>,
    pub until_ms: u64,
    pub grants: Seq<Grant>,
}

impl View for PreparedFailover {
    type V = Failover;

    open spec fn view(&self) -> Failover {
        Failover {
            gen: self.gen,
            region: self.region@,
            old_wid: opt_string(self.old_wid),
            new_wid: self.new_wid@,
            until_ms: self.until_ms,
            grants: grants(self.grants@),
        }
    }
}

/// A block of the grid that goes to another worker as a whole, which the log has
/// and that is not applied yet.
pub struct PreparedBlockMigration {
    pub gen: u64,
    pub block: String,
    pub old_wid: String,
    pub new_wid: String,
    pub grants: Vec<PreparedGrant>,
}

/// A `PreparedBlockMigration` by its views.
#[verifier::ext_equal]
pub ghost struct Migration {
    pub gen: u64,
    pub block: Seq<char>,
    pub old_wid: Seq<char>,
    pub new_wid: Seq<char>,
    pub grants: Seq<Grant>,
}

impl View for PreparedBlockMigration {
    type V = Migration;

    open spec fn view(&self) -> Migration {
        Migration {
            gen: self.gen,
            block: self.block@,
            old_wid: self.old_wid@,
            new_wid: self.new_wid@,
            grants: grants(self.grants@),
        }
    }
}

/// A departure that the neighbour has not confirmed.
pub struct PendingMesh {
    pub frame: Json,
    pub sent_ms: u64,
    pub target: String,
}

/// A `PendingMesh` by its views.
#[verifier::ext_equal]
pub ghost struct Parked {
    pub frame: Doc,
    pub sent_ms: u64,
    pub target: Seq<char>,
}

impl View for PendingMesh {
    type V = Parked;

    open spec fn view(&self) -> Parked {
        Parked { frame: self.frame@, sent_ms: self.sent_ms, target: self.target@ }
    }
}

/// The warning that an owner is about to lose an entity.
pub struct HandoffIntent {
    pub source_region: String,
    pub target_region: String,
    pub source_worker: String,
    pub target_worker: String,
    pub epoch: u64,
}

/// A `HandoffIntent` by its views.
#[verifier::ext_equal]
pub ghost struct Intent {
    pub source_region: Seq<char>,
    pub target_region: Seq<char>,
    pub source_worker: Seq<char>,
    pub target_worker: Seq<char>,
    pub epoch: u64,
}

impl View for HandoffIntent {
    type V = Intent;

    open spec fn view(&self) -> Intent {
        Intent {
            source_region: self.source_region@,
            target_region: self.target_region@,
            source_worker: self.source_worker@,
            target_worker: self.target_worker@,
            epoch: self.epoch,
        }
    }
}

/// A command that was routed to an owner and not answered yet.
pub struct PendingCommand {
    pub caller: String,
    pub entity: String,
    pub owner: String,
    pub authority_comp: String,
    pub authority_epoch: Option<u64>,
}

/// A `PendingCommand` by its views.
#[verifier::ext_equal]
pub ghost struct Routed {
    pub caller: Seq<char>,
    pub entity: Seq<char>,
    pub owner: Seq<char>,
    pub authority_comp: Seq<char>,
    pub authority_epoch: Option<u64>,
}

impl View for PendingCommand {
    type V = Routed;

    open spec fn view(&self) -> Routed {
        Routed {
            caller: self.caller@,
            entity: self.entity@,
            owner: self.owner@,
            authority_comp: self.authority_comp@,
            authority_epoch: self.authority_epoch,
        }
    }
}

/// An event that waits to be merged with others like it.
pub struct BufferedEvent {
    pub target_wids: Vec<String>,
    pub eid: String,
    pub event: Json,
    pub payload: Json,
    pub class: String,
    pub coalesce_key: String,
    pub sim_time: Json,
    pub gen: Json,
}

/// A `BufferedEvent` by its views.
#[verifier::ext_equal]
pub ghost struct Buffered {
    pub targets: Seq<Seq<char>>,
    pub eid: Seq<char>,
    pub event: Doc,
    pub payload: Doc,
    pub class: Seq<char>,
    pub key: Seq<char>,
    pub sim_time: Doc,
    pub gen: Doc,
}

impl View for BufferedEvent {
    type V = Buffered;

    open spec fn view(&self) -> Buffered {
        Buffered {
            targets: texts(self.target_wids@),
            eid: self.eid@,
            event: self.event@,
            payload: self.payload@,
            class: self.class@,
            key: self.coalesce_key@,
            sim_time: self.sim_time@,
            gen: self.gen@,
        }
    }
}

/// Entities that are to be routed anew, a few at a time.
pub struct RebalanceJob {
    pub eids: Vec<String>,
    pub cursor: usize,
}

impl View for RebalanceJob {
    type V = (Seq<Seq<char>>, nat);

    open spec fn view(&self) -> (Seq<Seq<char>>, nat) {
        (texts(self.eids@), self.cursor as nat)
    }
}

/// Counters.
#[derive(Clone, Copy, Debug, PartialEq, Eq, Structural)]
pub struct Metrics {
    /// Transfers between regions of this broker.
    pub handoffs: u64,
    /// Departures to neighbour brokers.
    pub mesh_handoffs: u64,
    pub applies: u64,
    pub failovers: u64,
    pub wal_compactions: u64,
    /// Arrivals refused because their sender's lease was superseded.
    pub fenced_stale_handoffs: u64,
}

/// The log as the broker sees it.
#[derive(Clone, Copy, Debug, PartialEq, Eq, Structural)]
pub struct WalStatus {
    /// Whether there is a file to write to.
    pub attached: bool,
    /// The bytes in it.
    pub bytes: u64,
    /// The size past which it is compacted; never where it is zero.
    pub compact_bytes: u64,
    /// Whether a snapshot was taken, whose offset a rewrite would spoil.
    pub snapshot_seen: bool,
    /// Whether a write failed: nothing durable is accepted any more.
    pub degraded: bool,
    /// Whether every write is to fail.
    pub fail_inject: bool,
    /// Up to this generation everything is on disk and applied.
    pub durable_gen: u64,
    /// The highest generation that was written.
    pub pending_gen: u64,
}

/// The grid of square zones: columns, rows, and the size of a cell.
pub struct Grid {
    pub cols: u64,
    pub rows: u64,
    pub cell_w: Float,
    pub cell_h: Float,
}

/// A `Grid` by its bits.
pub ghost struct Cells {
    pub cols: u64,
    pub rows: u64,
    pub cell_w: u64,
    pub cell_h: u64,
}

impl View for Grid {
    type V = Cells;

    open spec fn view(&self) -> Cells {
        Cells { cols: self.cols, rows: self.rows, cell_w: self.cell_w@, cell_h: self.cell_h@ }
    }
}

/// The broker's state.
pub struct ServerState {
    pub entities: StrMap<Entity>,
    pub workers: StrMap<Worker>,
    /// Which worker holds a region.
    pub region_worker: StrMap<String>,
    /// Until when.
    pub region_expires: StrMap<u64>,
    pub lease_ttl_ms: u64,
    pub standbys: Vec<String>,
    pub orphaned_regions: Vec<String>,
    pub wal: WalStatus,
    pub pending_updates: Vec<PreparedUpdate>,
    pub pending_handoffs: Vec<PreparedHandoff>,
    pub pending_remote_handoffs: Vec<PendingRemoteHandoff>,
    pub pending_failovers: Vec<PreparedFailover>,
    pub pending_block_migrations: Vec<PreparedBlockMigration>,
    pub metrics: Metrics,
    pub rejected: Vec<Json>,
    pub pending_commands: StrMap<PendingCommand>,
    pub entity_id_reservations: u64,
    pub flags: StrMap<Json>,
    /// The load that a worker last reported.
    pub worker_load: StrMap<Float>,
    /// The cut that load balancing shifts.
    pub boundary: Float,
    pub boundaries: Vec<Cut>,
    pub grid2d: Option<Grid>,
    pub splits: StrMap<Splits>,
    pub zone_topology_rev: u64,
    pub rebalance_jobs: Vec<RebalanceJob>,
    pub event_outbox: Vec<BufferedEvent>,
    /// How loaded the broker is: 0, 1 or 2.
    pub load_level: u8,
    pub connect_auth_token: Option<String>,
    pub connect_auth_claims: StrMap<PeerClaims>,
    /// The neighbour regions that a link is up to.
    pub mesh: StrSet,
    pub pending_mesh: StrMap<PendingMesh>,
    /// The latest epoch under which an entity departed.
    pub mesh_forwarded_epoch: StrMap<u64>,
    /// The regions that neighbour brokers own.
    pub mesh_regions: StrSet,
    pub mesh_ack_drop: bool,
    pub mesh_adopt_drop: bool,
    pub region_lease_epoch: StrMap<u64>,
    pub my_region: String,
    pub superseded_regions: StrSet,
    /// Deleted entities, which never come back.
    pub deleted_entities: StrSet,
    pub pending_handoff_intent: StrMap<HandoffIntent>,
    pub threshold_ttl_ms: u64,
    pub ghosts: StrMap<GhostEntity>,
    pub draining: bool,
    /// Whether the process ends once it is drained.
    pub drain_exit: bool,
    pub monitor_last_tick_ms: u64,
    pub outbox: Vec<Out>,
    /// Events that go to the log without anybody waiting for the outcome.
    pub log_queue: Vec<Json>,
}

/// A `ServerState` by its views.
#[verifier::ext_equal]
pub ghost struct State {
    pub entities: Map<Seq<char>, Ent>,
    pub workers: Map<Seq<char>, Peer>,
    pub region_worker: Map<Seq<char>, Seq<char>>,
    pub region_expires: Map<Seq<char>, u64>,
    pub lease_ttl_ms: u64,
    pub standbys: Seq<Seq<char>>,
    pub orphaned_regions: Seq<Seq<char>>,
    pub wal: WalStatus,
    pub pending_updates: Seq<Upd>,
    pub pending_handoffs: Seq<Hand>,
    pub pending_remote_handoffs: Seq<(Seq<char>, Seq<char>)>,
    pub pending_failovers: Seq<Failover>,
    pub pending_block_migrations: Seq<Migration>,
    pub metrics: Metrics,
    pub rejected: Seq<Doc>,
    pub pending_commands: Map<Seq<char>, Routed>,
    pub entity_id_reservations: u64,
    pub flags: Map<Seq<char>, Doc>,
    pub worker_load: Map<Seq<char>, u64>,
    pub boundary: u64,
    pub boundaries: Seq<Line>,
    pub grid2d: Option<Cells>,
    pub splits: Map<Seq<char>, Seq<u64>>,
    pub zone_topology_rev: u64,
    pub rebalance_jobs: Seq<(Seq<Seq<char>>, nat)>,
    pub event_outbox: Seq<Buffered>,
    pub load_level: u8,
    pub connect_auth_token: Option<Seq<char>>,
    pub connect_auth_claims: Map<Seq<char>, Claims>,
    pub mesh: Set<Seq<char>>,
    pub pending_mesh: Map<Seq<char>, Parked>,
    pub mesh_forwarded_epoch: Map<Seq<char>, u64>,
    pub mesh_regions: Set<Seq<char>>,
    pub mesh_ack_drop: bool,
    pub mesh_adopt_drop: bool,
    pub region_lease_epoch: Map<Seq<char>, u64>,
    pub my_region: Seq<char>,
    pub superseded_regions: Set<Seq<char>>,
    pub deleted_entities: Set<Seq<char>>,
    pub pending_handoff_intent: Map<Seq<char>, Intent>,
    pub threshold_ttl_ms: u64,
    pub ghosts: Map<Seq<char>, Mirror>,
    pub draining: bool,
    pub drain_exit: bool,
    pub monitor_last_tick_ms: u64,
    pub outbox: Seq<Sent>,
    pub log_queue: Seq<Doc>,
}

/// An optional grid by its bits.
pub open spec fn opt_grid(o: Option<Grid>) -> Option<Cells> {
    match o {
        Some(g) => Some(g@),
        None => None,
    }
}

/// A list by its views.
pub open spec fn views<T: View>(s: Seq<T>) -> Seq<T::V> {
    s.map_values(|t: T| t@)
}

impl View for ServerState {
    type V = State;

    open spec fn view(&self) -> State {
        State {
            entities: self.entities@,
            workers: self.workers@,
            region_worker: self.region_worker@,
            region_expires: self.region_expires@,
            lease_ttl_ms: self.lease_ttl_ms,
            standbys: texts(self.standbys@),
            orphaned_regions: texts(self.orphaned_regions@),
            wal: self.wal,
            pending_updates: views(self.pending_updates@),
            pending_handoffs: views(self.pending_handoffs@),
            pending_remote_handoffs: views(self.pending_remote_handoffs@),
            pending_failovers: views(self.pending_failovers@),
            pending_block_migrations: views(self.pending_block_migrations@),
            metrics: self.metrics,
            rejected: docs(self.rejected@),
            pending_commands: self.pending_commands@,
            entity_id_reservations: self.entity_id_reservations,
            flags: self.flags@,
            worker_load: self.worker_load@,
            boundary: self.boundary@,
            boundaries: lines(self.boundaries@),
            grid2d: opt_grid(self.grid2d),
            splits: self.splits@,
            zone_topology_rev: self.zone_topology_rev,
            rebalance_jobs: views(self.rebalance_jobs@),
            event_outbox: views(self.event_outbox@),
            load_level: self.load_level,
            connect_auth_token: opt_string(self.connect_auth_token),
            connect_auth_claims: self.connect_auth_claims@,
            mesh: self.mesh@,
            pending_mesh: self.pending_mesh@,
            mesh_forwarded_epoch: self.mesh_forwarded_epoch@,
            mesh_regions: self.mesh_regions@,
            mesh_ack_drop: self.mesh_ack_drop,
            mesh_adopt_drop: self.mesh_adopt_drop,
            region_lease_epoch: self.region_lease_epoch@,
            my_region: self.my_region@,
            superseded_regions: self.superseded_regions@,
            deleted_entities: self.deleted_entities@,
            pending_handoff_intent: self.pending_handoff_intent@,
            threshold_ttl_ms: self.threshold_ttl_ms,
            ghosts: self.ghosts@,
            draining: self.draining,
            drain_exit: self.drain_exit,
            monitor_last_tick_ms: self.monitor_last_tick_ms,
            outbox: views(self.outbox@),
            log_queue: docs(self.log_queue@),
        }
    }
}

impl State {
    /// The state with a message to a peer sent, where the peer is connected.
    pub open spec fn emitted(self, wid: Seq<char>, msg: Doc) -> State {
        if self.workers.contains_key(wid) {
            State { outbox: self.outbox.push(Sent::Peer { wid, msg }), ..self }
        } else {
            self
        }
    }

    /// The state with a line added to the record of rejections.
    pub open spec fn noted(self, d: Doc) -> State {
        State { rejected: self.rejected.push(d), ..self }
    }

    /// The state with an event on its way to the log.
    pub open spec fn logged(self, ev: Doc) -> State {
        State { log_queue: self.log_queue.push(ev), ..self }
    }

    /// Whether a peer has an attribute.
    pub open spec fn has_attr(self, wid: Seq<char>, attr: Seq<char>) -> bool {
        self.workers.contains_key(wid) && self.workers[wid].attributes.contains(attr)
    }
}

/// Sends a message to a peer, where it is connected.
pub fn emit(s: &mut ServerState, wid: &str, msg: Json)
    ensures
        final(s)@ == old(s)@.emitted(wid@, msg@),
{
    if s.workers.contains_key(wid) {
        let ghost before = views(s.outbox@);
        s.outbox.push(Out::Peer { wid: wid.to_owned(), msg });
        proof {
            assert(views(s.outbox@) =~= before.push(Sent::Peer { wid: wid@, msg: msg@ }));
        }
    }
}

/// Adds a line to the record of rejections.
pub fn note_rejected(s: &mut ServerState, line: Json)
    ensures
        final(s)@ == old(s)@.noted(line@),
{
    let ghost before = docs(s.rejected@);
    s.rejected.push(line);
    proof {
        assert(docs(s.rejected@) =~= before.push(line@));
    }
}

/// Sends an event to the log without waiting for the outcome.
pub fn log_later(s: &mut ServerState, ev: Json)
    ensures
        final(s)@ == old(s)@.logged(ev@),
{
    let ghost before = docs(s.log_queue@);
    s.log_queue.push(ev);
    proof {
        assert(docs(s.log_queue@) =~= before.push(ev@));
    }
}

/// Whether a peer has an attribute.
pub fn worker_has_attr(s: &ServerState, wid: &str, attr: &str) -> (r: bool)
    ensures
        r == s@.has_attr(wid@, attr@),
{
    match s.workers.get(wid) {
        Some(w) => w.attributes.contains(attr),
        None => false,
    }
}

}
