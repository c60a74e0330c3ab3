//! What is remembered and what is not: damage to the log is found, old logs are read, clocks
//! are set as they should be, and what a commit or an arrival does lasts.

use vstd::prelude::*;
use vstd::string::*;
use crate::adopt::{msg_entity, Gate};
use crate::attention::law_gone_from_all_views;
use crate::authority::authority_doc;
use crate::clock::{normalized, stored};
use crate::crc::crc32;
use crate::doc::{json_parse, Doc, Num};
use crate::dispatch::{Around, Job, Reply};
use crate::entity::{succ, Ent};
use crate::failover::{max_failover_gen, max_migration_gen, regranted};
use crate::handoff::{max_hand_gen, moved};
use crate::order::sorted;
use crate::partition::{
    band_from, band_name, first_region, intended, name_of_strip, refined, strip_after, Line,
};
use crate::recovery::{ent_replayed, later_epoch};
use crate::schema::{authority_hash, fnv, fnv_entity};
use crate::sight::{component_update, critical_section, entity_msg};
use crate::state::{Failover, Grant, Hand, Metrics, Migration, Sent, State, WalStatus};
use crate::succession::{
    has_named_owners, is_finite, is_free_of, is_physics, lemma_received_given, lemma_revokes_lose,
};
use crate::threshold::{step_notice, stepped, Tx};
use crate::wal::{
    decoded, log_error, log_events, log_good, log_records, log_tail, log_version, selected,
    tail_len, Rec,
};
use vstd::utf8::encode_utf8;

verus! {

broadcast use {crate::doc::group_json, crate::strmap::group_map};

/// A sealed line that was changed is not read: where the seal does not fit what is in it, and
/// where there is none in a log that has seals, nothing comes out; where it fits, what is in
/// it does.
pub proof fn law_seals_are_checked(line: Seq<char>, v: Doc, c: u64, d: Seq<char>)
    ensures
        json_parse(line) == Some(v) && v.get_u64("_c"@) == Some(c) && v.get_str("_d"@) == Some(d)
            ==> decoded(line, true) == (if c == crc32(encode_utf8(d)) {
            json_parse(d)
        } else {
            None
        }),
        json_parse(line) == Some(v) && v.get_str("_d"@) is None ==> decoded(line, true) is None
            && decoded(line, false) == Some(v),
{
}

proof fn lemma_tail(recs: Seq<Rec>, j: int)
    requires
        0 <= j < recs.len(),
        recs[j].ev is Some,
    ensures
        tail_len(recs) < recs.len() - j,
    decreases recs.len(),
{
    if recs.last().ev is None {
        let d = recs.drop_last();
        assert(d[j] == recs[j]);
        lemma_tail(d, j);
    }
}

/// Damage in the middle is found: a log with seals in which a record cannot be read while a
/// later one can is refused, and gives no events.
pub proof fn law_damage_is_found(lines: Seq<Seq<char>>, i: int, j: int, off: Option<u64>)
    requires
        log_version(lines) == 1,
        0 <= i < j < log_records(lines).len(),
        log_records(lines)[i].ev is None,
        log_records(lines)[j].ev is Some,
    ensures
        log_error(lines) is Some,
        log_events(lines, off).len() == 0,
{
    let recs = log_records(lines);
    lemma_tail(recs, j);
    let good = log_good(lines);
    assert(i < good.len());
    assert(good[i] == recs[i]);
}

/// A log of a version that is not known here is refused.
pub proof fn law_newer_logs_are_refused(lines: Seq<Seq<char>>, off: Option<u64>)
    requires
        log_version(lines) > 1,
    ensures
        log_error(lines) is Some,
        log_events(lines, off).len() == 0,
{
}

proof fn lemma_selected(recs: Seq<Rec>)
    ensures
        selected(recs, None).len() == recs.filter(|r: Rec| r.ev is Some).len(),
        forall|d: Doc| #[trigger]
            selected(recs, None).contains(d) <==> exists|i: int|
                0 <= i < recs.len() && (#[trigger] recs[i]).ev == Some(d),
    decreases recs.len(),
{
    reveal(Seq::filter);
    if recs.len() > 0 {
        let p = recs.drop_last();
        lemma_selected(p);
        let a = selected(p, None);
        let b = selected(recs, None);
        assert forall|d: Doc| #[trigger] b.contains(d) <==> exists|i: int|
            0 <= i < recs.len() && (#[trigger] recs[i]).ev == Some(d) by {
            if recs.last().ev is Some {
                crate::json::lemma_push_contains(a, recs.last().ev->0, d);
            }
            if exists|i: int| 0 <= i < recs.len() && (#[trigger] recs[i]).ev == Some(d) {
                let i = choose|i: int| 0 <= i < recs.len() && (#[trigger] recs[i]).ev == Some(d);
                if i < p.len() {
                    assert(p[i] == recs[i]);
                }
            }
            if a.contains(d) {
                let i = choose|i: int| 0 <= i < p.len() && (#[trigger] p[i]).ev == Some(d);
                assert(recs[i].ev == Some(d));
            }
            if recs.last().ev == Some(d) {
                assert(recs[recs.len() - 1].ev == Some(d));
            }
        }
    } else {
        assert(forall|d: Doc| !selected(recs, None).contains(d));
    }
}

/// A log from before there were seals is read as far as it can be: it is never refused, and
/// every record of it that can be read is.
pub proof fn law_old_logs_are_read(lines: Seq<Seq<char>>, d: Doc)
    requires
        log_version(lines) == 0,
    ensures
        log_error(lines) is None,
        log_tail(lines) == 0,
        log_events(lines, None).contains(d) <==> exists|i: int|
            0 <= i < log_records(lines).len() && (#[trigger] log_records(lines)[i]).ev == Some(d),
{
    let recs = log_records(lines);
    assert(log_good(lines) =~= recs);
    lemma_selected(recs);
}

/// Clocks are set by the broker: the generation is one above the last, and the first is what
/// the writer says; the server's time is now, or one above the last where that is later; the
/// simulated time is what the writer says, and at least a step above the last.
pub proof fn law_clocks_are_set(e: Ent, value: Doc, now_ms: u64, said: u64, last: u64)
    requires
        value.as_u64() == Some(said),
        last <= u64::MAX - 16,
    ensures
        ({
            let g = normalized(e, "gen"@, value, now_ms);
            let t = normalized(e, "t_server"@, value, now_ms);
            let x = normalized(e, "sim_time"@, value, now_ms);
            &&& stored(e, "gen"@) is None ==> g == Doc::Num(Num::Pos(said))
            &&& stored(e, "gen"@) == Some(last) ==> g == Doc::Num(Num::Pos((last + 1) as u64))
            &&& stored(e, "t_server"@) is None ==> t == Doc::Num(Num::Pos(now_ms))
            &&& stored(e, "t_server"@) == Some(last) && last < now_ms ==> t == Doc::Num(
                Num::Pos(now_ms),
            )
            &&& stored(e, "t_server"@) == Some(last) && last >= now_ms ==> t == Doc::Num(
                Num::Pos((last + 1) as u64),
            )
            &&& stored(e, "sim_time"@) == Some(last) && said >= last + 16 ==> x == Doc::Num(
                Num::Pos(said),
            )
            &&& stored(e, "sim_time"@) == Some(last) && said < last + 16 ==> x == Doc::Num(
                Num::Pos((last + 16) as u64),
            )
            &&& stored(e, "sim_time"@) is None && said >= 16 ==> x == Doc::Num(Num::Pos(said))
        }),
{
    reveal_strlit("gen");
    reveal_strlit("t_server");
    reveal_strlit("sim_time");
    reveal_strlit("physics");
    assert("gen"@.len() == 3 && "t_server"@.len() == 8 && "sim_time"@.len() == 8 && "physics"@.len()
        == 7);
    assert("t_server"@[0] != "sim_time"@[0]);
}

/// A record that only sets an epoch is replayed so: of one component that component's, and of
/// the position that of all that moves with it.
pub proof fn law_epochs_are_replayed(e: Ent, ev: Doc, c: Seq<char>, n: u64)
    requires
        ev.get("authority"@) is None,
        ev.get_u64("authority_epoch"@) == Some(n),
        ev.get_str("comp"@) == Some(c),
    ensures
        ({
            let r = ent_replayed(e, "authority_epoch"@, ev);
            &&& r.components == e.components && r.pos == e.pos && r.vel == e.vel && r.region
                == e.region
            &&& c != "pos"@ && c != "physics_island"@ ==> r.authority.contains_key(c)
                && r.authority[c].epoch == n && r.authority[c].owner == e.recorded(c).owner
            &&& c == "pos"@ || c == "physics_island"@ ==> forall|k: Seq<char>| #[trigger]
                is_physics(e, k) ==> r.authority.contains_key(k) && r.authority[k].epoch == n
            &&& ev.get_u64("version"@) is Some ==> r.version == ev.get_u64("version"@)->0
            &&& ev.get_u64("version"@) is None ==> r.version == e.version
        }),
{
    crate::replay::lemma_late_kinds();
    let r = ent_replayed(e, "authority_epoch"@, ev);
    if c == "pos"@ || c == "physics_island"@ {
        assert forall|k: Seq<char>| #[trigger] is_physics(e, k) implies r.authority.contains_key(k)
            && r.authority[k].epoch == n by {
            assert(e.island().contains(k));
        }
    }
}

/// The hash of a snapshot takes in one byte after the other, and one entity after the other.
pub proof fn law_hashes_are_taken_step_by_step(
    h: u64,
    a: Seq<u8>,
    b: Seq<u8>,
    m: Map<Seq<char>, Ent>,
    names: Seq<Seq<char>>,
    k: Seq<char>,
)
    ensures
        fnv(h, Seq::<u8>::empty()) == h,
        fnv(h, a + b) == fnv(fnv(h, a), b),
        authority_hash(m, names.push(k)) == fnv_entity(authority_hash(m, names), k, m[k]),
        authority_hash(m, Seq::<Seq<char>>::empty()) == 0xcbf29ce484222325u64,
        !m[k].authority.contains_key("pos"@) ==> fnv_entity(h, k, m[k]) == fnv(h, encode_utf8(k)),
        m[k].authority.contains_key("pos"@) && m[k].authority["pos"@].owner is None ==> fnv_entity(
            h,
            k,
            m[k],
        ) == fnv(h, encode_utf8(k)).wrapping_add(m[k].authority["pos"@].epoch),
        m[k].authority.contains_key("pos"@) && m[k].authority["pos"@].owner is Some ==> fnv_entity(
            h,
            k,
            m[k],
        ) == fnv(
            fnv(h, encode_utf8(k)).wrapping_add(m[k].authority["pos"@].epoch),
            encode_utf8(m[k].authority["pos"@].owner->0),
        ),
    decreases b.len(),
{
    assert(names.push(k).drop_last() =~= names);
    if b.len() == 0 {
        assert(a + b =~= a);
    } else {
        law_hashes_are_taken_step_by_step(h, a, b.drop_last(), m, names, k);
        assert((a + b).drop_last() =~= a + b.drop_last());
        assert((a + b).last() == b.last());
    }
}

/// An arrival takes the place of its mirror, and is answered: one that may be taken has its
/// mirror taken away; one that was sent on, or crossed a departure, is confirmed and not
/// taken; one from a sender that was taken over from is neither.
pub proof fn law_arrivals_replace_their_mirrors(s: State, wid: Seq<char>, f: Doc)
    requires
        s.workers.contains_key(wid),
        s.workers.dom().finite(),
        msg_entity(f).len() > 0,
        !s.mesh_adopt_drop,
        !s.deleted_entities.contains(msg_entity(f)),
    ensures
        ({
            let t = s.gated(wid, f);
            let k = msg_entity(f);
            let ack = Sent::Peer { wid, msg: entity_msg("MeshAck"@, k) };
            &&& t.entities == s.entities && t.pending_mesh == s.pending_mesh
            &&& !s.is_fenced(f) ==> t.ghosts == s.ghosts.remove(k)
            &&& !s.is_fenced(f) && s.ghosts.contains_key(k) ==> forall|w: Seq<char>| #[trigger]
                s.workers.contains_key(w) ==> !t.workers[w].view.contains(k)
            &&& s.is_fenced(f) ==> t.outbox == s.outbox && t.ghosts == s.ghosts
            &&& s.gate(f) == Gate::Stop && !s.is_fenced(f) ==> t.outbox.last() == ack
        }),
{
    let k = msg_entity(f);
    let m = s.mirror_dropped(k);
    let a = State { ghosts: s.ghosts.remove(k), ..s };
    law_gone_from_all_views(a, k);
    crate::rights::lemma_hidden_keeps(a, sorted(a.workers.dom()), k);
    if s.ghosts.contains_key(k) {
        assert(m.workers.dom() == s.workers.dom());
        assert(m.workers.dom().contains(wid));
        assert forall|w: Seq<char>| #[trigger] s.workers.contains_key(w) implies !m.workers[w].view.contains(
            k,
        ) by {
            assert(a.workers.contains_key(w));
        }
    } else {
        assert(s.ghosts.remove(k) =~= s.ghosts);
    }
}

/// A commit lasts: once it is on the log, the entity is in the region that the transaction
/// names, its physics is that region's holder's, none of it is left to the old region's, and
/// the new holder has it in view. Other entities stay as they were.
pub proof fn law_commits_last(
    s: State,
    wid: Seq<char>,
    f: Doc,
    tx: Tx,
    to: Seq<char>,
)
    requires
        s.entities.contains_key(tx.eid),
        is_finite(s.entities[tx.eid]),
        has_named_owners(s.entities[tx.eid]),
        tx.phase == "commit"@,
        tx.to == Doc::Str(to),
        to.len() > 0,
        s.region_worker.contains_key(to),
        s.region_worker[to].len() > 0,
        s.region_worker.contains_key(s.entities[tx.eid].region),
        s.region_worker[to] != s.region_worker[s.entities[tx.eid].region],
    ensures
        ({
            let e = s.entities[tx.eid];
            let t = s.step_finished(wid, f, s.step_of(tx), true);
            let r = t.entities[tx.eid];
            let old = s.region_worker[e.region];
            let new = s.region_worker[to];
            &&& t.entities.contains_key(tx.eid)
            &&& r.region == to && r.pos == e.pos && r.vel == e.vel
            &&& forall|c: Seq<char>| #[trigger]
                is_physics(e, c) && c != "threshold.tx"@ ==> r.recorded(c).owner != Some(old)
            &&& forall|c: Seq<char>| #[trigger]
                is_physics(e, c) && c != "threshold.tx"@ && is_free_of(e.recorded(c), Some(old))
                    ==> r.authority.contains_key(c) && r.authority[c].owner == Some(new)
            &&& s.workers.contains_key(new) ==> t.workers[new].view.contains(tx.eid)
            &&& forall|k: Seq<char>| k != tx.eid ==> #[trigger] t.entities[k] == s.entities[k]
        }),
{
    let k = tx.eid;
    let e = s.entities[k];
    let p = s.step_of(tx);
    let old = s.region_worker[e.region];
    let new = s.region_worker[to];
    crate::passage::law_commit_changes_hands(s, tx, to);
    let q = stepped(e, p);
    let n = Ent {
        components: e.components.insert("threshold.tx"@, q.components["threshold.tx"@]),
        region: to,
        ..e
    };
    reveal_strlit("commit");
    reveal_strlit("adopt");
    reveal_strlit("abort");
    assert("commit"@.len() == 6 && "adopt"@.len() == 5 && "abort"@.len() == 5);
    let m = tx.on(e);
    assert(m.components.dom() =~= e.components.dom().insert("threshold.tx"@));
    assert(is_finite(m));
    crate::succession::law_physics_changes_hands(m, Some(old), Some(new));
    let g = crate::failover::grant_of(k, m, Some(old), Some(new));
    crate::succession::lemma_regranted(m, g, Some(old), new);
    lemma_same_physics(e, n);
    let a = s.with_entity(k, q);
    let b = if a.workers.contains_key(old) {
        a.all_revoked(old, k, p.moved_comps)
    } else {
        a
    };
    assert(p.old_region == e.region && p.new_region == to);
    assert(e.region != to);
    if a.workers.contains_key(old) {
        lemma_revokes_lose(a, old, k, p.moved_comps);
    }
    assert(a.entities.dom() =~= s.entities.dom());
    assert(b.entities.dom().contains(k));
    lemma_received_given(b, new, k, p.moved_comps);
    let c = a.changed_hands(k, p.old_region, p.new_region, p.moved_comps);
    assert(c == b.received(new, k, p.moved_comps));
    let r = c.entities[k];
    assert forall|x: Seq<char>| #[trigger] is_physics(e, x) && x != "threshold.tx"@ implies r.recorded(
        x,
    ).owner != Some(old) && (is_free_of(e.recorded(x), Some(old)) ==> r.authority.contains_key(x)
        && r.authority[x].owner == Some(new)) by {
        assert(is_physics(n, x));
        assert(q.authority.contains_key(x)) by {
            lemma_kept_authority(m, p.authority, x);
        }
        assert(q.recorded(x).owner != Some(old));
        assert(b.entities[k].authority.contains_key(x));
        assert(r.authority.contains_key(x));
    }
    let t = s.step_finished(wid, f, p, true);
    crate::ledger::lemma_viewers_queues(c, sorted(c.workers.dom()), k, step_notice(p));
    lemma_viewers_only_send(c, sorted(c.workers.dom()), k, step_notice(p));
    assert(t.entities == c.entities && t.workers == c.workers);
    if s.workers.contains_key(new) {
        assert(a.workers.dom().contains(new));
        assert(b.workers.dom().contains(new));
    }
}

proof fn lemma_kept_authority(e: Ent, snapshot: Doc, c: Seq<char>)
    requires
        is_finite(e),
        is_physics(e, c),
        exists|old: Option<Seq<char>>, new: Option<Seq<char>>|
            snapshot == authority_doc(#[trigger] e.advanced(old, new).authority),
    ensures
        e.snapshot_applied(snapshot).authority.contains_key(c),
{
    let (old, new) = choose|old: Option<Seq<char>>, new: Option<Seq<char>>|
        snapshot == authority_doc(#[trigger] e.advanced(old, new).authority);
    crate::succession::law_physics_changes_hands(e, old, new);
    let free = is_free_of(e.recorded(c), old);
    assert(e.advanced(old, new).authority.contains_key(c));
}

proof fn lemma_same_physics(e: Ent, n: Ent)
    requires
        n.authority == e.authority,
        n.components == e.components.insert("threshold.tx"@, n.components["threshold.tx"@]),
    ensures
        forall|c: Seq<char>| c != "threshold.tx"@ ==> #[trigger] is_physics(n, c) == is_physics(e, c),
        forall|c: Seq<char>|
            c != "threshold.tx"@ ==> (#[trigger] n.recorded(c)).owner == e.recorded(c).owner,
{
    reveal_strlit("threshold.tx");
    reveal_strlit("authority.mode");
    reveal_strlit("acl");
    assert("threshold.tx"@.len() == 12 && "authority.mode"@.len() == 14 && "acl"@.len() == 3);
}

proof fn lemma_viewers_only_send(s: State, names: Seq<Seq<char>>, eid: Seq<char>, msg: Doc)
    ensures
        ({
            let t = s.told_viewers(names, eid, msg);
            t == (State { outbox: t.outbox, ..s })
        }),
    decreases names.len(),
{
    if names.len() > 0 {
        lemma_viewers_only_send(s, names.drop_last(), eid, msg);
    }
}

/// What has no place along the axis is moved by none: a fresh entity of that kind is in the
/// first strip, one that is in a strip stays there, and of a region that is split it is in
/// the last band.
pub proof fn law_without_a_place(
    cuts: Seq<Line>,
    current: Seq<char>,
    c: Seq<char>,
    splits: Map<Seq<char>, Seq<u64>>,
)
    ensures
        first_region(None, cuts) == name_of_strip(0, cuts.len()),
        strip_after(None, current, cuts) == current,
        intended(None, current, cuts) is None,
        splits.contains_key(c) ==> refined(c, None, splits)
            == band_name(c, splits[c].len()),
        !splits.contains_key(c) ==> refined(c, None, splits) == c,
{
    if splits.contains_key(c) {
        lemma_last_band(splits[c], 0);
    }
}

proof fn lemma_last_band(subs: Seq<u64>, i: int)
    requires
        0 <= i <= subs.len(),
    ensures
        band_from(None, subs, i) == subs.len(),
    decreases subs.len() - i,
{
    if i < subs.len() {
        lemma_last_band(subs, i + 1);
    }
}

/// The fence against what departed is the highest epoch that it departed under.
pub proof fn law_fences_do_not_fall(m: Map<Seq<char>, u64>, k: Seq<char>, epoch: u64)
    ensures
        ({
            let r = later_epoch(m, k, epoch);
            &&& r >= epoch
            &&& m.contains_key(k) ==> r >= m[k]
            &&& r == epoch || (m.contains_key(k) && r == m[k])
        }),
{
}

/// An arrival that is sent again is confirmed again and changes nothing: one that is here in
/// the same region, under the epoch that it states. One that is here as something else is
/// neither taken nor confirmed.
pub proof fn law_repeated_arrivals_are_confirmed(
    s: State,
    jobs: Seq<Job>,
    wid: Seq<char>,
    f: Doc,
    cell: Seq<char>,
    near: Set<Seq<char>>,
    region: Seq<char>,
    a: Reply,
    env: Around,
)
    requires
        s.entities.contains_key(msg_entity(f)),
        s.place_of(f, cell) == Some(region),
        s.workers.contains_key(wid),
    ensures
        ({
            let k = msg_entity(f);
            let e = s.entities[k];
            let t = s.stepped(
                jobs.push(Job::Adopt { wid, f, cell, near }),
                a,
                env,
            );
            let epoch = f.get_u64("authority_epoch"@);
            let same = e.region == region && (epoch is None || epoch->0 == e.island_epoch());
            &&& t.1 == jobs && t.0.entities == s.entities
            &&& same && !s.mesh_ack_drop ==> t.0 == (State {
                outbox: s.outbox.push(Sent::Peer { wid, msg: entity_msg("MeshAck"@, k) }),
                ..s
            })
            &&& !same ==> t.0.outbox == s.outbox
        }),
{
    reveal(State::on_adopt);
    let q = jobs.push(Job::Adopt { wid, f, cell, near });
    assert(q.drop_last() =~= jobs);
}

proof fn lemma_hand_gens(hs: Seq<Hand>, least: u64)
    ensures
        max_hand_gen(hs, least) >= least,
        forall|i: int|
            0 <= i < hs.len() ==> max_hand_gen(hs, least) >= (#[trigger] hs[i]).gen,
    decreases hs.len(),
{
    if hs.len() > 0 {
        let d = hs.drop_last();
        lemma_hand_gens(d, least);
        assert forall|i: int| 0 <= i < hs.len() implies max_hand_gen(hs, least) >= (
        #[trigger] hs[i]).gen by {
            if i < d.len() {
                assert(d[i] == hs[i]);
            }
        }
    }
}

proof fn lemma_failover_gens(fs: Seq<Failover>, least: u64)
    ensures
        max_failover_gen(fs, least) >= least,
        forall|i: int|
            0 <= i < fs.len() ==> max_failover_gen(fs, least) >= (
            #[trigger] fs[i]).gen,
    decreases fs.len(),
{
    if fs.len() > 0 {
        let d = fs.drop_last();
        lemma_failover_gens(d, least);
        assert forall|i: int| 0 <= i < fs.len() implies max_failover_gen(fs, least)
            >= (#[trigger] fs[i]).gen by {
            if i < d.len() {
                assert(d[i] == fs[i]);
            }
        }
    }
}

proof fn lemma_migration_gens(ms: Seq<Migration>, least: u64)
    ensures
        max_migration_gen(ms, least) >= least,
        forall|i: int|
            0 <= i < ms.len() ==> max_migration_gen(ms, least) >= (
            #[trigger] ms[i]).gen,
    decreases ms.len(),
{
    if ms.len() > 0 {
        let d = ms.drop_last();
        lemma_migration_gens(d, least);
        assert forall|i: int| 0 <= i < ms.len() implies max_migration_gen(ms, least)
            >= (#[trigger] ms[i]).gen by {
            if i < d.len() {
                assert(d[i] == ms[i]);
            }
        }
    }
}

proof fn lemma_grants_keep_log(s: State, wid: Seq<char>, eid: Seq<char>, comps: Seq<Seq<char>>)
    ensures
        s.all_granted(wid, eid, comps).wal == s.wal,
        s.all_revoked(wid, eid, comps).wal == s.wal,
    decreases comps.len(),
{
    if comps.len() > 0 {
        lemma_grants_keep_log(s, wid, eid, comps.drop_last());
    }
}

proof fn lemma_components_keep_log(
    s: State,
    wid: Seq<char>,
    eid: Seq<char>,
    comps: Map<Seq<char>, Doc>,
    names: Seq<Seq<char>>,
)
    ensures
        s.components_sent(wid, eid, comps, names).wal == s.wal,
    decreases names.len(),
{
    if names.len() > 0 {
        lemma_components_keep_log(s, wid, eid, comps, names.drop_last());
    }
}

proof fn lemma_shown_keeps_log(s: State, wid: Seq<char>, eid: Seq<char>)
    ensures
        s.shown(wid, eid).wal == s.wal,
{
    if s.entities.contains_key(eid) {
        let e = s.entities[eid];
        let names = sorted(e.components.dom());
        let a = s.emitted(wid, critical_section(eid, "begin"@)).emitted(
            wid,
            entity_msg("AddEntity"@, eid),
        ).emitted(wid, component_update(eid, "pos"@, e.pos.doc())).emitted(
            wid,
            component_update(eid, "vel"@, e.vel.doc()),
        );
        lemma_components_keep_log(a, wid, eid, e.components, names);
        let b = a.components_sent(wid, eid, e.components, names).emitted(
            wid,
            critical_section(eid, "end"@),
        ).view_added(wid, eid);
        lemma_grants_keep_log(b, wid, eid, b.client_grants(wid, eid));
    }
}

proof fn lemma_received_keeps_log(s: State, wid: Seq<char>, eid: Seq<char>, comps: Seq<Seq<char>>)
    ensures
        s.received(wid, eid, comps).wal == s.wal,
{
    lemma_grants_keep_log(s, wid, eid, comps);
    lemma_shown_keeps_log(s, wid, eid);
    lemma_grants_keep_log(s.shown(wid, eid), wid, eid, comps);
}

proof fn lemma_handoffs_keep_log(s: State, hs: Seq<Hand>)
    ensures
        s.handoffs_applied(hs).wal == s.wal,
    decreases hs.len(),
{
    if hs.len() > 0 {
        let h = hs.last();
        lemma_handoffs_keep_log(s, hs.drop_last());
        let p = s.handoffs_applied(hs.drop_last());
        if p.entities.contains_key(h.eid) {
            let a = State {
                metrics: Metrics {
                    handoffs: succ(p.metrics.handoffs),
                    ..p.metrics
                },
                ..p.with_entity(h.eid, moved(p.entities[h.eid], h))
            };
            let b = if h.old_wid is Some && a.workers.contains_key(h.old_wid->0) {
                a.all_revoked(h.old_wid->0, h.eid, h.moved_comps)
            } else {
                a
            };
            if h.old_wid is Some {
                lemma_grants_keep_log(a, h.old_wid->0, h.eid, h.moved_comps);
            }
            if h.new_wid is Some {
                lemma_received_keeps_log(b, h.new_wid->0, h.eid, h.moved_comps);
            }
        }
    }
}

proof fn lemma_regrants_keep_log(
    s: State,
    gs: Seq<Grant>,
    old: Option<Seq<char>>,
    new: Seq<char>,
)
    ensures
        s.grants_applied(gs, old, new).wal == s.wal,
    decreases gs.len(),
{
    if gs.len() > 0 {
        let g = gs.last();
        lemma_regrants_keep_log(s, gs.drop_last(), old, new);
        let p = s.grants_applied(gs.drop_last(), old, new);
        if p.entities.contains_key(g.eid) {
            let a = p.with_entity(g.eid, regranted(p.entities[g.eid], g));
            let b = match old {
                Some(o) => a.all_revoked(o, g.eid, g.moved_comps),
                None => a,
            };
            if old is Some {
                lemma_grants_keep_log(a, old->0, g.eid, g.moved_comps);
            }
            lemma_received_keeps_log(b, new, g.eid, g.moved_comps);
        }
    }
}

proof fn lemma_failovers_keep_log(s: State, fs: Seq<Failover>)
    ensures
        s.failovers_applied(fs).wal == s.wal,
    decreases fs.len(),
{
    if fs.len() > 0 {
        let f = fs.last();
        lemma_failovers_keep_log(s, fs.drop_last());
        let p = s.failovers_applied(fs.drop_last());
        let a = State {
            region_worker: p.region_worker.insert(f.region, f.new_wid),
            region_expires: p.region_expires.insert(f.region, f.until_ms),
            metrics: Metrics {
                failovers: succ(p.metrics.failovers),
                ..p.metrics
            },
            ..p
        };
        lemma_regrants_keep_log(a.peer_moved(f.new_wid, f.region), f.grants, None, f.new_wid);
    }
}

proof fn lemma_migrations_keep_log(s: State, ms: Seq<Migration>)
    ensures
        s.migrations_applied(ms).wal == s.wal,
    decreases ms.len(),
{
    if ms.len() > 0 {
        let m = ms.last();
        lemma_migrations_keep_log(s, ms.drop_last());
        let p = s.migrations_applied(ms.drop_last());
        let a = State { region_worker: p.region_worker.insert(m.block, m.new_wid), ..p };
        lemma_regrants_keep_log(
            a.peer_moved(m.new_wid, m.block),
            m.grants,
            Some(m.old_wid),
            m.new_wid,
        );
    }
}

/// Once a round of transfers, failovers or migrations is in the log, the durable generation
/// is not below any of them, nor below what it was.
pub proof fn law_durable_generations_cover(s: State, i: int)
    ensures
        ({
            let g = s.wal.durable_gen;
            let h = s.handoffs_synced(true).wal.durable_gen;
            let f = s.failovers_synced(true).wal.durable_gen;
            let m = s.migrations_synced(true).wal.durable_gen;
            &&& h >= g && f >= g && m >= g
            &&& 0 <= i < s.pending_handoffs.len() ==> h >= s.pending_handoffs[i].gen
            &&& 0 <= i < s.pending_failovers.len() ==> f >= s.pending_failovers[i].gen
            &&& 0 <= i < s.pending_block_migrations.len() ==> m >= s.pending_block_migrations[i].gen
        }),
{
    let g = s.wal.durable_gen;
    lemma_hand_gens(s.pending_handoffs, g);
    lemma_failover_gens(s.pending_failovers, g);
    lemma_migration_gens(s.pending_block_migrations, g);
    let h = max_hand_gen(s.pending_handoffs, g);
    lemma_handoffs_keep_log(
        State {
            pending_handoffs: Seq::empty(),
            wal: WalStatus { durable_gen: h, ..s.wal },
            ..s
        },
        s.pending_handoffs,
    );
    let f = max_failover_gen(s.pending_failovers, g);
    lemma_failovers_keep_log(
        State {
            pending_failovers: Seq::empty(),
            wal: WalStatus { durable_gen: f, ..s.wal },
            ..s
        },
        s.pending_failovers,
    );
    let m = max_migration_gen(s.pending_block_migrations, g);
    lemma_migrations_keep_log(
        State {
            pending_block_migrations: Seq::empty(),
            wal: WalStatus { durable_gen: m, ..s.wal },
            ..s
        },
        s.pending_block_migrations,
    );
}

}
