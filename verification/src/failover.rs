//! Regions and blocks that go to another worker as a whole.

use vstd::prelude::*;
use crate::authority::{
    advance_physics_island_authority, apply_authority_snapshot, authority_doc, authority_to_json,
};
use crate::doc::{docs, Doc, Json, Num};
use crate::entity::{succ, Ent};
use crate::grants::revoke_all;
use crate::handoff::receive;
use crate::json::{opt_text_doc, texts_doc};
use crate::order::sorted;
use crate::sight::sorted_keys;
use crate::state::{
    grants, note_rejected, views, Failover, Grant, Metrics, Migration, Peer, PreparedBlockMigration,
    PreparedFailover, PreparedGrant, ServerState, State, WalStatus,
};
use crate::strmap::{Dup, texts, StrMap};
use crate::text::{opt_text, str_eq};

verus! {

broadcast use {crate::doc::group_json, crate::strmap::group_map};

/// The grant of an entity's physics from `old` to `new`.
pub open spec fn grant_of(
    eid: Seq<char>,
    e: Ent,
    old: Option<Seq<char>>,
    new: Option<Seq<char>>,
) -> Grant {
    Grant {
        eid,
        version: succ(e.version),
        authority_epoch: e.next_island_epoch(),
        authority: authority_doc(e.advanced(old, new).authority),
        moved_comps: e.advanced_names(old, new),
    }
}

impl State {
    /// The grants of those of some entities that are in a region and of which
    /// anything moves.
    pub open spec fn region_grants(
        self,
        region: Seq<char>,
        old: Option<Seq<char>>,
        new: Option<Seq<char>>,
        names: Seq<Seq<char>>,
    ) -> Seq<Grant>
        decreases names.len(),
    {
        if names.len() == 0 {
            Seq::empty()
        } else {
            let before = self.region_grants(region, old, new, names.drop_last());
            let eid = names.last();
            let g = grant_of(eid, self.entities[eid], old, new);
            if self.entities.contains_key(eid) && self.entities[eid].region == region
                && g.moved_comps.len() > 0 {
                before.push(g)
            } else {
                before
            }
        }
    }

    /// The grants of all entities in a region.
    pub open spec fn grants_of_region(
        self,
        region: Seq<char>,
        old: Option<Seq<char>>,
        new: Option<Seq<char>>,
    ) -> Seq<Grant> {
        self.region_grants(region, old, new, sorted(self.entities.dom()))
    }
}

fn collect_grants(s: &ServerState, region: &str, old: Option<&str>, new: Option<&str>) -> (r: Vec<
    PreparedGrant,
>)
    ensures
        grants(r@) == s@.grants_of_region(region@, opt_text(old), opt_text(new)),
{
    let ids = sorted_keys(&s.entities);
    let ghost all = texts(ids@);
    let ghost o = opt_text(old);
    let ghost w = opt_text(new);
    let mut out: Vec<PreparedGrant> = Vec::new();
    let mut i: usize = 0;
    proof {
        assert(all.take(0) =~= Seq::empty());
        assert(grants(out@) =~= Seq::empty());
    }
    while i < ids.len()
        invariant
            i <= ids.len(),
            all == texts(ids@),
            o == opt_text(old),
            w == opt_text(new),
            grants(out@) == s@.region_grants(region@, o, w, all.take(i as int)),
        decreases ids.len() - i,
    {
        let eid = ids[i].as_str();
        let ghost before = grants(out@);
        proof {
            assert(all.take(i + 1).drop_last() =~= all.take(i as int));
            assert(all.take(i + 1).last() == eid@);
        }
        if let Some(e) = s.entities.get(eid) {
            if str_eq(e.region.as_str(), region) {
                let mut next = e.dup();
                let (epoch, moved) = advance_physics_island_authority(&mut next, old, new);
                proof {
                    assert(texts(moved@).len() == moved@.len());
                }
                if moved.len() > 0 {
                    let g = PreparedGrant {
                        eid: ids[i].clone(),
                        version: e.version.saturating_add(1),
                        authority_epoch: epoch,
                        authority: authority_to_json(&next.authority),
                        moved_comps: moved,
                    };
                    out.push(g);
                    proof {
                        assert(grants(out@) =~= before.push(g@));
                    }
                }
            }
        }
        i = i + 1;
    }
    proof {
        assert(all.take(i as int) =~= all);
    }
    out
}

/// A grant as a document.
pub open spec fn grant_doc(g: Grant) -> Doc {
    Doc::Obj(
        map![
            "entity"@ => Doc::Str(g.eid),
            "version"@ => Doc::Num(Num::Pos(g.version)),
            "authority_epoch"@ => Doc::Num(Num::Pos(g.authority_epoch)),
            "authority"@ => g.authority,
            "components"@ => texts_doc(g.moved_comps)],
    )
}

/// Grants as a document.
pub open spec fn grants_doc(gs: Seq<Grant>) -> Doc {
    Doc::Arr(gs.map_values(|g: Grant| grant_doc(g)))
}

fn grants_json(gs: &Vec<PreparedGrant>) -> (r: Json)
    ensures
        r@ == grants_doc(grants(gs@)),
{
    let mut v: Vec<Json> = Vec::new();
    let mut i: usize = 0;
    while i < gs.len()
        invariant
            i <= gs.len(),
            v.len() == i,
            forall|j: int| 0 <= j < i ==> (#[trigger] v@[j])@ == grant_doc(gs@[j]@),
        decreases gs.len() - i,
    {
        let g = &gs[i];
        let j = StrMap::new().with("entity", Json::str(g.eid.as_str())).with(
            "version",
            Json::u64(g.version),
        ).with("authority_epoch", Json::u64(g.authority_epoch)).with("authority", g.authority.dup()).with(
            "components",
            Json::texts(&g.moved_comps),
        ).done();
        v.push(j);
        i = i + 1;
    }
    proof {
        assert(docs(v@) =~= grants_doc(grants(gs@))->Arr_0);
    }
    Json::Arr(v)
}

impl State {
    /// The failover of a region to a standby.
    pub open spec fn failover_of(
        self,
        region: Seq<char>,
        old: Option<Seq<char>>,
        new: Seq<char>,
        until_ms: u64,
    ) -> Failover {
        Failover {
            gen: succ(self.wal.pending_gen),
            region,
            old_wid: old,
            new_wid: new,
            until_ms,
            grants: self.grants_of_region(region, old, Some(new)),
        }
    }

    /// The migration of a block to another worker.
    pub open spec fn migration_of(self, block: Seq<char>, old: Seq<char>, new: Seq<char>) -> Migration {
        Migration {
            gen: succ(self.wal.pending_gen),
            block,
            old_wid: old,
            new_wid: new,
            grants: self.grants_of_region(block, Some(old), Some(new)),
        }
    }
}

/// Prepares the failover of a region to a standby.
pub fn prepare_failover(
    s: &ServerState,
    region: &str,
    old_wid: Option<&str>,
    new_wid: &str,
    until_ms: u64,
) -> (r: PreparedFailover)
    ensures
        r@ == s@.failover_of(region@, opt_text(old_wid), new_wid@, until_ms),
{
    PreparedFailover {
        gen: s.wal.pending_gen.saturating_add(1),
        region: region.to_owned(),
        old_wid: crate::entity::to_opt_string(old_wid),
        new_wid: new_wid.to_owned(),
        until_ms,
        grants: collect_grants(s, region, old_wid, Some(new_wid)),
    }
}

/// Prepares the migration of a block to another worker.
pub fn prepare_block_migration(s: &ServerState, block: &str, old_wid: &str, new_wid: &str) -> (r:
    PreparedBlockMigration)
    ensures
        r@ == s@.migration_of(block@, old_wid@, new_wid@),
{
    PreparedBlockMigration {
        gen: s.wal.pending_gen.saturating_add(1),
        block: block.to_owned(),
        old_wid: old_wid.to_owned(),
        new_wid: new_wid.to_owned(),
        grants: collect_grants(s, block, Some(old_wid), Some(new_wid)),
    }
}

/// The event of a failover.
pub open spec fn failover_event(f: Failover) -> Doc {
    Doc::Obj(
        map![
            "kind"@ => Doc::Str("failover_grant"@),
            "region"@ => Doc::Str(f.region),
            "old_owner"@ => opt_text_doc(f.old_wid),
            "new_owner"@ => Doc::Str(f.new_wid),
            "grants"@ => grants_doc(f.grants),
            "gen"@ => Doc::Num(Num::Pos(f.gen)),
            "reason"@ => Doc::Str("lease expired"@)],
    )
}

/// The event of a block migration.
pub open spec fn migration_event(m: Migration) -> Doc {
    Doc::Obj(
        map![
            "kind"@ => Doc::Str("block_migration"@),
            "block"@ => Doc::Str(m.block),
            "old_owner"@ => Doc::Str(m.old_wid),
            "new_owner"@ => Doc::Str(m.new_wid),
            "grants"@ => grants_doc(m.grants),
            "gen"@ => Doc::Num(Num::Pos(m.gen)),
            "reason"@ => Doc::Str("rebalance_2d"@)],
    )
}

/// The event of a failover.
pub fn prepared_failover_wal_event(f: &PreparedFailover) -> (r: Json)
    ensures
        r@ == failover_event(f@),
{
    StrMap::new().with("kind", Json::str("failover_grant")).with("region", Json::str(f.region.as_str())).with(
        "old_owner",
        Json::opt_str(&f.old_wid),
    ).with("new_owner", Json::str(f.new_wid.as_str())).with("grants", grants_json(&f.grants)).with(
        "gen",
        Json::u64(f.gen),
    ).with("reason", Json::str("lease expired")).done()
}

/// The event of a block migration.
pub fn prepared_block_migration_wal_event(m: &PreparedBlockMigration) -> (r: Json)
    ensures
        r@ == migration_event(m@),
{
    StrMap::new().with("kind", Json::str("block_migration")).with("block", Json::str(m.block.as_str())).with(
        "old_owner",
        Json::str(m.old_wid.as_str()),
    ).with("new_owner", Json::str(m.new_wid.as_str())).with("grants", grants_json(&m.grants)).with(
        "gen",
        Json::u64(m.gen),
    ).with("reason", Json::str("rebalance_2d")).done()
}

impl State {
    /// The state after a failover went to the log, or did not: without the log the
    /// standby is free again.
    pub open spec fn failover_staged(self, f: Failover, written: bool) -> State {
        if written {
            State {
                wal: WalStatus { pending_gen: f.gen, ..self.wal },
                pending_failovers: self.pending_failovers.push(f),
                ..self
            }
        } else {
            State { standbys: self.standbys.insert(0, f.new_wid), ..self }
        }
    }

    /// The state after a migration went to the log, or did not.
    pub open spec fn migration_staged(self, m: Migration, written: bool) -> State {
        if written {
            State {
                wal: WalStatus { pending_gen: m.gen, ..self.wal },
                pending_block_migrations: self.pending_block_migrations.push(m),
                ..self
            }
        } else {
            self.noted(
                Doc::Obj(
                    map![
                        "block"@ => Doc::Str(m.block),
                        "old_owner"@ => Doc::Str(m.old_wid),
                        "new_owner"@ => Doc::Str(m.new_wid),
                        "reason"@ => Doc::Str(
                            "wal_persist_failed: block migration not durably staged"@,
                        )],
                ),
            )
        }
    }
}

/// Queues a failover that is on the log; without that, frees the standby again.
pub fn queue_failover_grant(s: &mut ServerState, f: PreparedFailover, written: bool) -> (r: bool)
    ensures
        r == written,
        final(s)@ == old(s)@.failover_staged(f@, written),
{
    if written {
        s.wal.pending_gen = f.gen;
        let ghost before = views(s.pending_failovers@);
        s.pending_failovers.push(f);
        proof {
            assert(views(s.pending_failovers@) =~= before.push(f@));
        }
    } else {
        let ghost before = texts(s.standbys@);
        s.standbys.insert(0, f.new_wid);
        proof {
            assert(texts(s.standbys@) =~= before.insert(0, f@.new_wid));
        }
    }
    written
}

/// Queues a migration that is on the log.
pub fn queue_block_migration(s: &mut ServerState, m: PreparedBlockMigration, written: bool) -> (r:
    bool)
    ensures
        r == written,
        final(s)@ == old(s)@.migration_staged(m@, written),
{
    if written {
        s.wal.pending_gen = m.gen;
        let ghost before = views(s.pending_block_migrations@);
        s.pending_block_migrations.push(m);
        proof {
            assert(views(s.pending_block_migrations@) =~= before.push(m@));
        }
    } else {
        let line = StrMap::new().with("block", Json::str(m.block.as_str())).with(
            "old_owner",
            Json::str(m.old_wid.as_str()),
        ).with("new_owner", Json::str(m.new_wid.as_str())).with(
            "reason",
            Json::str("wal_persist_failed: block migration not durably staged"),
        ).done();
        note_rejected(s, line);
    }
    written
}

/// The entity after a grant.
pub open spec fn regranted(e: Ent, g: Grant) -> Ent {
    (Ent { version: g.version, ..e }).snapshot_applied(g.authority)
}

impl State {
    /// The state after a grant: the entity is the new owner's, and the old one, where
    /// it still runs, has lost it.
    pub open spec fn grant_applied(
        self,
        g: Grant,
        old: Option<Seq<char>>,
        new: Seq<char>,
    ) -> State {
        if self.entities.contains_key(g.eid) {
            let s = self.with_entity(g.eid, regranted(self.entities[g.eid], g));
            let s2 = match old {
                Some(o) => s.all_revoked(o, g.eid, g.moved_comps),
                None => s,
            };
            s2.received(new, g.eid, g.moved_comps)
        } else {
            self
        }
    }

    /// The state after some grants.
    pub open spec fn grants_applied(
        self,
        gs: Seq<Grant>,
        old: Option<Seq<char>>,
        new: Seq<char>,
    ) -> State
        decreases gs.len(),
    {
        if gs.len() == 0 {
            self
        } else {
            self.grants_applied(gs.drop_last(), old, new).grant_applied(gs.last(), old, new)
        }
    }

    /// The state with a peer in a region.
    pub open spec fn peer_moved(self, wid: Seq<char>, region: Seq<char>) -> State {
        if self.workers.contains_key(wid) {
            State {
                workers: self.workers.insert(wid, Peer { region, ..self.workers[wid] }),
                ..self
            }
        } else {
            self
        }
    }

    /// The state after a failover was applied. The old worker's lease has lapsed: it
    /// is fenced by the epoch, and not told.
    pub open spec fn failover_applied(self, f: Failover) -> State {
        (State {
            region_worker: self.region_worker.insert(f.region, f.new_wid),
            region_expires: self.region_expires.insert(f.region, f.until_ms),
            metrics: Metrics { failovers: succ(self.metrics.failovers), ..self.metrics },
            ..self
        }).peer_moved(f.new_wid, f.region).grants_applied(f.grants, None, f.new_wid)
    }

    /// The state after a migration was applied.
    pub open spec fn migration_applied(self, m: Migration) -> State {
        (State { region_worker: self.region_worker.insert(m.block, m.new_wid), ..self }).peer_moved(
            m.new_wid,
            m.block,
        ).grants_applied(m.grants, Some(m.old_wid), m.new_wid)
    }

    /// The state after some failovers were applied.
    pub open spec fn failovers_applied(self, fs: Seq<Failover>) -> State
        decreases fs.len(),
    {
        if fs.len() == 0 {
            self
        } else {
            self.failovers_applied(fs.drop_last()).failover_applied(fs.last())
        }
    }

    /// The state after some migrations were applied.
    pub open spec fn migrations_applied(self, ms: Seq<Migration>) -> State
        decreases ms.len(),
    {
        if ms.len() == 0 {
            self
        } else {
            self.migrations_applied(ms.drop_last()).migration_applied(ms.last())
        }
    }

    /// The state after some failovers could not be made durable.
    pub open spec fn failovers_unsynced(self, fs: Seq<Failover>) -> State
        decreases fs.len(),
    {
        if fs.len() == 0 {
            self
        } else {
            self.failovers_unsynced(fs.drop_last()).noted(
                Doc::Obj(
                    map![
                        "region"@ => Doc::Str(fs.last().region),
                        "new_owner"@ => Doc::Str(fs.last().new_wid),
                        "reason"@ => Doc::Str(
                            "wal_sync_failed: staged failover grant did not cross durable watermark"@,
                        )],
                ),
            )
        }
    }

    /// The state after some migrations could not be made durable.
    pub open spec fn migrations_unsynced(self, ms: Seq<Migration>) -> State
        decreases ms.len(),
    {
        if ms.len() == 0 {
            self
        } else {
            self.migrations_unsynced(ms.drop_last()).noted(
                Doc::Obj(
                    map![
                        "block"@ => Doc::Str(ms.last().block),
                        "old_owner"@ => Doc::Str(ms.last().old_wid),
                        "new_owner"@ => Doc::Str(ms.last().new_wid),
                        "reason"@ => Doc::Str(
                            "wal_sync_failed: staged block migration did not cross durable watermark"@,
                        )],
                ),
            )
        }
    }

    /// The state after the log was made durable, or not.
    pub open spec fn failovers_synced(self, synced: bool) -> State {
        let s = State { pending_failovers: Seq::empty(), ..self };
        if synced {
            (State {
                wal: WalStatus {
                    durable_gen: max_failover_gen(self.pending_failovers, self.wal.durable_gen),
                    ..self.wal
                },
                ..s
            }).failovers_applied(self.pending_failovers)
        } else {
            s.failovers_unsynced(self.pending_failovers)
        }
    }

    /// The state after the log was made durable, or not.
    pub open spec fn migrations_synced(self, synced: bool) -> State {
        let s = State { pending_block_migrations: Seq::empty(), ..self };
        if synced {
            (State {
                wal: WalStatus {
                    durable_gen: max_migration_gen(
                        self.pending_block_migrations,
                        self.wal.durable_gen,
                    ),
                    ..self.wal
                },
                ..s
            }).migrations_applied(self.pending_block_migrations)
        } else {
            s.migrations_unsynced(self.pending_block_migrations)
        }
    }
}

/// The highest generation of some failovers, and at least `least`.
pub open spec fn max_failover_gen(fs: Seq<Failover>, least: u64) -> u64
    decreases fs.len(),
{
    if fs.len() == 0 {
        least
    } else {
        let m = max_failover_gen(fs.drop_last(), least);
        if m < fs.last().gen {
            fs.last().gen
        } else {
            m
        }
    }
}

/// The highest generation of some migrations, and at least `least`.
pub open spec fn max_migration_gen(ms: Seq<Migration>, least: u64) -> u64
    decreases ms.len(),
{
    if ms.len() == 0 {
        least
    } else {
        let m = max_migration_gen(ms.drop_last(), least);
        if m < ms.last().gen {
            ms.last().gen
        } else {
            m
        }
    }
}

fn apply_grants(s: &mut ServerState, gs: &Vec<PreparedGrant>, from: Option<&str>, to: &str)
    ensures
        final(s)@ == old(s)@.grants_applied(grants(gs@), opt_text(from), to@),
{
    let ghost before = s@;
    let ghost all = grants(gs@);
    let ghost o = opt_text(from);
    let mut i: usize = 0;
    proof {
        assert(all.take(0) =~= Seq::empty());
    }
    while i < gs.len()
        invariant
            i <= gs.len(),
            all == grants(gs@),
            o == opt_text(from),
            s@ == before.grants_applied(all.take(i as int), o, to@),
        decreases gs.len() - i,
    {
        let g = &gs[i];
        proof {
            assert(all.take(i + 1).drop_last() =~= all.take(i as int));
            assert(all.take(i + 1).last() == g@);
        }
        let eid = g.eid.as_str();
        if let Some(mut e) = s.entities.remove(eid) {
            e.version = g.version;
            apply_authority_snapshot(&mut e, &g.authority);
            s.entities.insert(eid, e);
            if let Some(ow) = from {
                revoke_all(s, ow, eid, &g.moved_comps);
            }
            receive(s, to, eid, &g.moved_comps);
        }
        i = i + 1;
    }
    proof {
        assert(all.take(i as int) =~= all);
    }
}

fn move_peer(s: &mut ServerState, wid: &str, region: &str)
    ensures
        final(s)@ == old(s)@.peer_moved(wid@, region@),
{
    if let Some(mut w) = s.workers.remove(wid) {
        w.region = region.to_owned();
        s.workers.insert(wid, w);
    }
}

/// Applies a failover that is durable.
pub fn apply_prepared_failover(s: &mut ServerState, f: &PreparedFailover)
    ensures
        final(s)@ == old(s)@.failover_applied(f@),
{
    s.region_worker.insert(f.region.as_str(), f.new_wid.clone());
    s.region_expires.insert(f.region.as_str(), f.until_ms);
    s.metrics.failovers = s.metrics.failovers.saturating_add(1);
    move_peer(s, f.new_wid.as_str(), f.region.as_str());
    apply_grants(s, &f.grants, None, f.new_wid.as_str());
}

/// Applies a migration that is durable.
pub fn apply_prepared_block_migration(s: &mut ServerState, m: &PreparedBlockMigration)
    ensures
        final(s)@ == old(s)@.migration_applied(m@),
{
    s.region_worker.insert(m.block.as_str(), m.new_wid.clone());
    move_peer(s, m.new_wid.as_str(), m.block.as_str());
    apply_grants(s, &m.grants, Some(m.old_wid.as_str()), m.new_wid.as_str());
}

/// Closes the group of queued failovers once the log was made durable, or not.
pub fn flush_pending_failovers(s: &mut ServerState, synced: bool)
    ensures
        final(s)@ == old(s)@.failovers_synced(synced),
{
    let ghost before = s@;
    let mut pending: Vec<PreparedFailover> = Vec::new();
    core::mem::swap(&mut s.pending_failovers, &mut pending);
    let ghost all = views(pending@);
    let mut i: usize = 0;
    proof {
        assert(all.take(0) =~= Seq::empty());
        assert(views(s.pending_failovers@) =~= Seq::empty());
    }
    if !synced {
        let ghost emptied = s@;
        while i < pending.len()
            invariant
                i <= pending.len(),
                all == views(pending@),
                s@ == emptied.failovers_unsynced(all.take(i as int)),
            decreases pending.len() - i,
        {
            let f = &pending[i];
            proof {
                assert(all.take(i + 1).drop_last() =~= all.take(i as int));
                assert(all.take(i + 1).last() == f@);
            }
            let line = StrMap::new().with("region", Json::str(f.region.as_str())).with(
                "new_owner",
                Json::str(f.new_wid.as_str()),
            ).with(
                "reason",
                Json::str("wal_sync_failed: staged failover grant did not cross durable watermark"),
            ).done();
            note_rejected(s, line);
            i = i + 1;
        }
        proof {
            assert(all.take(i as int) =~= all);
        }
        return;
    }
    let mut top: u64 = s.wal.durable_gen;
    while i < pending.len()
        invariant
            i <= pending.len(),
            all == views(pending@),
            top == max_failover_gen(all.take(i as int), before.wal.durable_gen),
        decreases pending.len() - i,
    {
        proof {
            assert(all.take(i + 1).drop_last() =~= all.take(i as int));
            assert(all.take(i + 1).last() == pending@[i as int]@);
        }
        if top < pending[i].gen {
            top = pending[i].gen;
        }
        i = i + 1;
    }
    proof {
        assert(all.take(i as int) =~= all);
    }
    s.wal.durable_gen = top;
    let ghost ready = s@;
    i = 0;
    while i < pending.len()
        invariant
            i <= pending.len(),
            all == views(pending@),
            s@ == ready.failovers_applied(all.take(i as int)),
        decreases pending.len() - i,
    {
        proof {
            assert(all.take(i + 1).drop_last() =~= all.take(i as int));
            assert(all.take(i + 1).last() == pending@[i as int]@);
        }
        apply_prepared_failover(s, &pending[i]);
        i = i + 1;
    }
    proof {
        assert(all.take(i as int) =~= all);
    }
}

/// Closes the group of queued migrations once the log was made durable, or not.
pub fn flush_pending_block_migrations(s: &mut ServerState, synced: bool)
    ensures
        final(s)@ == old(s)@.migrations_synced(synced),
{
    let ghost before = s@;
    let mut pending: Vec<PreparedBlockMigration> = Vec::new();
    core::mem::swap(&mut s.pending_block_migrations, &mut pending);
    let ghost all = views(pending@);
    let mut i: usize = 0;
    proof {
        assert(all.take(0) =~= Seq::empty());
        assert(views(s.pending_block_migrations@) =~= Seq::empty());
    }
    if !synced {
        let ghost emptied = s@;
        while i < pending.len()
            invariant
                i <= pending.len(),
                all == views(pending@),
                s@ == emptied.migrations_unsynced(all.take(i as int)),
            decreases pending.len() - i,
        {
            let m = &pending[i];
            proof {
                assert(all.take(i + 1).drop_last() =~= all.take(i as int));
                assert(all.take(i + 1).last() == m@);
            }
            let line = StrMap::new().with("block", Json::str(m.block.as_str())).with(
                "old_owner",
                Json::str(m.old_wid.as_str()),
            ).with("new_owner", Json::str(m.new_wid.as_str())).with(
                "reason",
                Json::str("wal_sync_failed: staged block migration did not cross durable watermark"),
            ).done();
            note_rejected(s, line);
            i = i + 1;
        }
        proof {
            assert(all.take(i as int) =~= all);
        }
        return;
    }
    let mut top: u64 = s.wal.durable_gen;
    while i < pending.len()
        invariant
            i <= pending.len(),
            all == views(pending@),
            top == max_migration_gen(all.take(i as int), before.wal.durable_gen),
        decreases pending.len() - i,
    {
        proof {
            assert(all.take(i + 1).drop_last() =~= all.take(i as int));
            assert(all.take(i + 1).last() == pending@[i as int]@);
        }
        if top < pending[i].gen {
            top = pending[i].gen;
        }
        i = i + 1;
    }
    proof {
        assert(all.take(i as int) =~= all);
    }
    s.wal.durable_gen = top;
    let ghost ready = s@;
    i = 0;
    while i < pending.len()
        invariant
            i <= pending.len(),
            all == views(pending@),
            s@ == ready.migrations_applied(all.take(i as int)),
        decreases pending.len() - i,
    {
        proof {
            assert(all.take(i + 1).drop_last() =~= all.take(i as int));
            assert(all.take(i + 1).last() == pending@[i as int]@);
        }
        apply_prepared_block_migration(s, &pending[i]);
        i = i + 1;
    }
    proof {
        assert(all.take(i as int) =~= all);
    }
}

proof fn lemma_unsynced(s: State, fs: Seq<Failover>, ms: Seq<Migration>)
    ensures
        s.failovers_unsynced(fs) == (State { rejected: s.failovers_unsynced(fs).rejected, ..s }),
        s.migrations_unsynced(ms) == (State { rejected: s.migrations_unsynced(ms).rejected, ..s }),
    decreases fs.len() + ms.len(),
{
    if fs.len() > 0 {
        lemma_unsynced(s, fs.drop_last(), ms);
    }
    if ms.len() > 0 {
        lemma_unsynced(s, fs, ms.drop_last());
    }
}

/// All or nothing: a block migration, or a failover, that is not durable leaves its
/// queue and changes nothing but the record of rejections: no entity, no holder of a
/// region, and not the durable generation.
pub proof fn law_unsynced_moves_nothing(s: State)
    ensures
        s.migrations_synced(false) == (State {
            rejected: s.migrations_synced(false).rejected,
            pending_block_migrations: Seq::empty(),
            ..s
        }),
        s.failovers_synced(false) == (State {
            rejected: s.failovers_synced(false).rejected,
            pending_failovers: Seq::empty(),
            ..s
        }),
{
    lemma_unsynced(
        State { pending_failovers: Seq::empty(), ..s },
        s.pending_failovers,
        Seq::empty(),
    );
    lemma_unsynced(
        State { pending_block_migrations: Seq::empty(), ..s },
        Seq::empty(),
        s.pending_block_migrations,
    );
}

}
