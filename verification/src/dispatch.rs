//! The broker as a machine: a message, or the clock, gives it tasks, and each step
//! takes up the latest one. A step that needs something from outside, such as a line
//! on the log, asks for it, and the next step is given the answer.

use vstd::prelude::*;
use vstd::string::*;
use crate::adopt::{arrival, msg_entity};
use crate::commands::request_name;
use crate::components::{named_entity, AuthorityChange, Change};
use crate::control::request_rejected;
use crate::doc::{docs, Doc, Json};
use crate::entity::{authority_epoch_from_value, value_epoch};
use crate::failover::{failover_event, migration_event};
use crate::grants::update_rejected;
use crate::handoff::handoff_event;
use crate::json::{num_or, or_null};
use crate::mesh::{Departure, Leave};
use crate::moves::Begun;
use crate::order::sorted;
use crate::publish::{Glance, Sight};
use crate::query::Reach;
use crate::report::{Backlog, Gauges, Lag, Readings};
use crate::schema::{marker_event, Identity};
use crate::sight::sorted_keys;
use crate::spawn::{register_event, PreparedSpawn};
use crate::state::{
    views, Failover, Hand, Migration, PendingRemoteHandoff, PreparedBlockMigration,
    PreparedFailover, PreparedHandoff, PreparedUpdate, State, Upd,
};
use crate::strmap::{Dup, texts, StrMap, StrSet};
use crate::threshold::{timeout_event, Step, ThresholdPlan};
use crate::update::{update_event, Judged, Verdict};

verus! {

broadcast use {crate::doc::group_json, crate::strmap::group_map};

/// One write of a message.
pub struct Item {
    pub eid: String,
    pub value: Json,
    pub epoch: Option<u64>,
}

/// An `Item` by its views.
#[verifier::ext_equal]
pub ghost struct Entry {
    pub eid: Seq<char>,
    pub value: Doc,
    pub epoch: Option<u64>,
}

impl View for Item {
    type V = Entry;

    open spec fn view(&self) -> Entry {
        Entry { eid: self.eid@, value: self.value@, epoch: self.epoch }
    }
}

/// The element of an array, or null where there is none.
pub open spec fn element(s: Seq<Doc>, i: int) -> Doc {
    if 0 <= i < s.len() {
        s[i]
    } else {
        Doc::Null
    }
}

/// The write that an element of a batch is: `[entity, value, epoch]`, or an object.
pub open spec fn entry_of(d: Doc) -> Option<Entry> {
    match d {
        Doc::Arr(a) => match element(a, 0).as_str() {
            Some(eid) => Some(Entry { eid, value: element(a, 1), epoch: element(a, 2).as_u64() }),
            None => None,
        },
        Doc::Obj(_) => match d.get_str("entity"@) {
            Some(eid) => Some(
                Entry {
                    eid,
                    value: or_null(d.get("value"@)),
                    epoch: d.get_u64("authority_epoch"@),
                },
            ),
            None => None,
        },
        _ => None,
    }
}

/// The writes among the elements of a batch.
pub open spec fn entries(s: Seq<Doc>) -> Seq<Entry>
    decreases s.len(),
{
    if s.len() == 0 {
        Seq::empty()
    } else {
        match entry_of(s.last()) {
            Some(e) => entries(s.drop_last()).push(e),
            None => entries(s.drop_last()),
        }
    }
}

/// The writes of a batch.
pub open spec fn batch_entries(f: Doc) -> Seq<Entry> {
    match f.get("updates"@) {
        Some(Doc::Arr(s)) => entries(s),
        _ => match f.get("values"@) {
            Some(Doc::Obj(m)) => sorted(m.dom()).map_values(
                |k: Seq<char>| Entry { eid: k, value: m[k], epoch: value_epoch(f) },
            ),
            _ => Seq::empty(),
        },
    }
}

fn item_of(d: &Json) -> (r: Option<Item>)
    ensures
        match r {
            Some(i) => entry_of(d@) == Some(i@),
            None => entry_of(d@) is None,
        },
{
    if let Some(a) = d.as_array() {
        proof {
            assert(docs(a@).len() == a@.len());
            if a@.len() > 0 {
                assert(docs(a@)[0] == a@[0]@);
            }
            if a@.len() > 1 {
                assert(docs(a@)[1] == a@[1]@);
            }
            if a@.len() > 2 {
                assert(docs(a@)[2] == a@[2]@);
            }
        }
        if a.len() == 0 {
            return None;
        }
        let eid = match a[0].as_str() {
            Some(e) => e,
            None => return None,
        };
        let value = if a.len() > 1 {
            a[1].dup()
        } else {
            Json::Null
        };
        let epoch: Option<u64> = if a.len() > 2 {
            a[2].as_u64()
        } else {
            None
        };
        return Some(Item { eid: eid.to_owned(), value, epoch });
    }
    if d.as_object().is_none() {
        return None;
    }
    match d.get_str("entity") {
        Some(eid) => Some(
            Item {
                eid: eid.to_owned(),
                value: d.member("value"),
                epoch: d.get_u64("authority_epoch"),
            },
        ),
        None => None,
    }
}

/// The writes of a batch.
pub fn batch_items(f: &Json) -> (r: Vec<Item>)
    ensures
        views(r@) == batch_entries(f@),
{
    let mut out: Vec<Item> = Vec::new();
    proof {
        assert(views(out@) =~= Seq::empty());
    }
    if let Some(u) = f.get("updates") {
        if let Some(a) = u.as_array() {
            let ghost all = docs(a@);
            let mut i: usize = 0;
            proof {
                assert(all.take(0) =~= Seq::empty());
            }
            while i < a.len()
                invariant
                    i <= a.len(),
                    all == docs(a@),
                    views(out@) == entries(all.take(i as int)),
                decreases a.len() - i,
            {
                let ghost before = views(out@);
                proof {
                    assert(all.take(i + 1).drop_last() =~= all.take(i as int));
                    assert(all.take(i + 1).last() == a@[i as int]@);
                }
                if let Some(item) = item_of(&a[i]) {
                    out.push(item);
                    proof {
                        assert(views(out@) =~= before.push(item@));
                    }
                }
                i = i + 1;
            }
            proof {
                assert(all.take(i as int) =~= all);
            }
            return out;
        }
    }
    if let Some(v) = f.get("values") {
        if let Some(m) = v.as_object() {
            let epoch: Option<u64> = authority_epoch_from_value(f);
            let keys = sorted_keys(m);
            let ghost all = texts(keys@);
            let mut i: usize = 0;
            while i < keys.len()
                invariant
                    i <= keys.len(),
                    out.len() == i,
                    all == texts(keys@),
                    all.to_set() == m@.dom(),
                    epoch == value_epoch(f@),
                    forall|j: int|
                        0 <= j < i ==> (#[trigger] out@[j])@ == (Entry {
                            eid: all[j],
                            value: m@[all[j]],
                            epoch: value_epoch(f@),
                        }),
                decreases keys.len() - i,
            {
                let k = keys[i].as_str();
                proof {
                    assert(all[i as int] == k@);
                    assert(all.to_set().contains(k@));
                }
                let value = match m.get(k) {
                    Some(v) => v.dup(),
                    None => Json::Null,
                };
                out.push(Item { eid: keys[i].clone(), value, epoch });
                i = i + 1;
            }
            proof {
                assert(views(out@) =~= batch_entries(f@));
            }
        }
    }
    out
}

/// What geometry says about a message: the cell of the grid that its position lies
/// in, what is near, and how its writes move things.
pub struct Scene {
    pub cell: String,
    pub reach: Reach,
    pub verdicts: Vec<Verdict>,
}

/// A `Scene` by its views.
#[verifier::ext_equal]
pub ghost struct Setting {
    pub cell: Seq<char>,
    pub near: Set<Seq<char>>,
    pub in_sphere: Set<Seq<char>>,
    pub verdicts: Seq<Judged>,
}

impl View for Scene {
    type V = Setting;

    open spec fn view(&self) -> Setting {
        Setting {
            cell: self.cell@,
            near: self.reach.near@,
            in_sphere: self.reach.in_sphere@,
            verdicts: views(self.verdicts@),
        }
    }
}

/// The verdict on a write: none where nothing is said.
pub open spec fn verdict_at(v: Seq<Judged>, i: int) -> Judged {
    if 0 <= i < v.len() {
        v[i]
    } else {
        Judged::silent()
    }
}

/// What surrounds the broker.
pub struct Surroundings {
    pub gauges: Gauges,
    pub lags: StrMap<Backlog>,
    pub me: Identity,
}

/// `Surroundings` by their views.
#[verifier::ext_equal]
pub ghost struct Around {
    pub gauges: Readings,
    pub lags: Map<Seq<char>, Lag>,
    pub broker_id: Seq<char>,
    pub registry_version: u64,
}

impl View for Surroundings {
    type V = Around;

    open spec fn view(&self) -> Around {
        Around {
            gauges: self.gauges@,
            lags: self.lags@,
            broker_id: self.me.broker_id@,
            registry_version: self.me.component_registry_version,
        }
    }
}

/// What a step needs from outside.
pub enum Ask {
    /// Nothing: there is nothing left to do.
    Done,
    /// Nothing: the next step may follow.
    Again,
    /// An event on the log.
    Append(Json),
    /// An event on the log, and the log durable.
    Commit(Json),
    /// The log durable.
    Sync,
    /// The cell of the grid that an entity belongs to.
    Cell(String),
    /// How an entity lies to the peers that may see it, and the value as it is shown
    /// from afar.
    Sights { eid: String, comp: String, value: Json },
}

/// An `Ask` by its views.
pub ghost enum Want {
    Done,
    Again,
    Append(Doc),
    Commit(Doc),
    Sync,
    Cell(Seq<char>),
    Sights { eid: Seq<char>, comp: Seq<char>, value: Doc },
}

impl View for Ask {
    type V = Want;

    open spec fn view(&self) -> Want {
        match self {
            Ask::Done => Want::Done,
            Ask::Again => Want::Again,
            Ask::Append(e) => Want::Append(e@),
            Ask::Commit(e) => Want::Commit(e@),
            Ask::Sync => Want::Sync,
            Ask::Cell(e) => Want::Cell(e@),
            Ask::Sights { eid, comp, value } => Want::Sights {
                eid: eid@,
                comp: comp@,
                value: value@,
            },
        }
    }
}

/// What a step is told.
pub enum Answer {
    /// Nothing was asked.
    Nothing,
    /// Whether an append, a commit or a sync succeeded.
    Went(bool),
    /// The cell that an entity belongs to.
    Cell(String),
    /// How an entity lies to peers.
    Seen(Vec<Sight>),
}

/// An `Answer` by its views.
pub ghost enum Reply {
    Nothing,
    Went(bool),
    Cell(Seq<char>),
    Seen(Seq<Glance>),
}

impl View for Answer {
    type V = Reply;

    open spec fn view(&self) -> Reply {
        match self {
            Answer::Nothing => Reply::Nothing,
            Answer::Went(b) => Reply::Went(*b),
            Answer::Cell(c) => Reply::Cell(c@),
            Answer::Seen(v) => Reply::Seen(views(v@)),
        }
    }
}

impl Reply {
    /// Whether what was asked for succeeded.
    pub open spec fn went(self) -> bool {
        self == Reply::Went(true)
    }

    /// The cell, where one was told.
    pub open spec fn cell(self) -> Seq<char> {
        match self {
            Reply::Cell(c) => c,
            _ => ""@,
        }
    }

    /// What was seen.
    pub open spec fn seen(self) -> Seq<Glance> {
        match self {
            Reply::Seen(s) => s,
            _ => Seq::empty(),
        }
    }
}

pub(crate) fn answer_went(a: &Answer) -> (r: bool)
    ensures
        r == a@.went(),
{
    match a {
        Answer::Went(b) => *b,
        _ => false,
    }
}

pub(crate) fn answer_cell(a: &Answer) -> (r: &str)
    ensures
        r@ == a@.cell(),
{
    match a {
        Answer::Cell(c) => c.as_str(),
        _ => "",
    }
}

pub(crate) fn answer_seen(a: Answer) -> (r: Vec<Sight>)
    ensures
        views(r@) == a@.seen(),
{
    match a {
        Answer::Seen(v) => v,
        _ => {
            let v: Vec<Sight> = Vec::new();
            proof {
                assert(views(v@) =~= Seq::empty());
            }
            v
        },
    }
}

/// Something to do.
pub enum Task {
    /// To check writes of a message, from one on.
    Items { wid: String, comp: String, items: Vec<Item>, verdicts: Vec<Verdict>, next: usize },
    /// To queue a write, once it is on the log.
    Write { update: PreparedUpdate },
    /// To let a new entity live, once it is on the log.
    Create { wid: String, f: Json, spawn: PreparedSpawn, near: StrSet },
    /// To delete an entity, once that is on the log.
    Delete { wid: String, f: Json },
    /// To change an authority, once that is on the log.
    Authority { wid: String, f: Json, change: AuthorityChange },
    /// To add a component, once that is on the log.
    AddComponent { wid: String, f: Json },
    /// To remove a component, once that is on the log.
    RemoveComponent { wid: String, f: Json },
    /// To take a step of a threshold transaction, once it is on the log.
    Threshold { wid: String, f: Json, plan: ThresholdPlan },
    /// To give out entity numbers, once that is on the log.
    Reserve { wid: String, f: Json },
    /// To record that a departure was confirmed, once that is on the log.
    Acked { eid: String },
    /// The same, before an arrival is taken.
    AckFirst { wid: String, f: Json, cell: String, near: StrSet },
    /// To place an arrival.
    Adopt { wid: String, f: Json, cell: String, near: StrSet },
    /// To take an arrival, once it is on the log.
    Adopted { wid: String, f: Json, spawn: PreparedSpawn, near: StrSet },
    /// To fold an entity, once that is on the log.
    Fold { wid: String, h: PreparedHandoff },
    /// To publish where a folded entity is.
    FoldEnd { eid: String },
    /// To ask who sees an entity.
    Show { eid: String, comp: String, value: Json },
    /// To bring a value to those who see it.
    Spread { eid: String, comp: String, value: Json },
    /// To queue a transfer, once it is on the log.
    Handoff { h: PreparedHandoff },
    /// To have the parts of an entity follow it.
    Parts { parts: Vec<String>, to: String },
    /// To make all that is queued durable and apply it.
    Flush,
    /// To close the group of writes, once the log is durable.
    WritesSynced,
    /// To publish writes that are durable, from one on.
    Publish { updates: Vec<PreparedUpdate>, next: usize },
    /// To place an entity that was written.
    Zone { eid: String, comp: String, value: Json },
    /// To make the queued transfers durable.
    SyncHandoffs,
    /// To apply them, once they are.
    HandoffsSynced,
    /// To make the queued failovers durable.
    SyncFailovers,
    /// To apply them, once they are.
    FailoversSynced,
    /// To make the queued migrations durable.
    SyncMigrations,
    /// To apply them, once they are.
    MigrationsSynced,
    /// To look at the crossings that wait.
    Crossings,
    /// To look at one of them.
    Cross { list: Vec<PendingRemoteHandoff>, next: usize },
    /// To let it go, once the place of the entity is known.
    CrossAt { list: Vec<PendingRemoteHandoff>, next: usize },
    /// To send entities off, from one on.
    Depart { list: Vec<PendingRemoteHandoff>, next: usize },
    /// To make a departure durable, once it is on the log.
    Leaving { d: Departure },
    /// To let an entity go, once that is durable.
    Left { d: Departure },
    /// To mark a snapshot.
    Snapshot { wid: String, f: Json },
    /// To answer with it, once it is on the log.
    SnapshotLogged { wid: String, f: Json },
    /// To answer a request to drain.
    DrainEnd { wid: String, f: Json, dispatched: u64 },
    /// To look at leases, from one on.
    Leases { regions: Vec<String>, next: usize },
    /// To queue a failover, once it is on the log.
    Failover { failover: PreparedFailover },
    /// To even out the grid.
    Rebalance2d,
    /// To queue a migration, once it is on the log.
    Migration { m: PreparedBlockMigration },
    /// To route entities anew, from one on.
    Reroute { eids: Vec<String>, next: usize },
    /// To route one anew, once its place is known.
    RerouteAt { eid: String },
    /// To abort transactions that timed out, from one on.
    Timeouts { ids: Vec<String>, next: usize },
    /// To abort one, once that is on the log.
    TimedOut { eid: String },
}

/// A `Task` by its views.
pub ghost enum Job {
    Items { wid: Seq<char>, comp: Seq<char>, items: Seq<Entry>, verdicts: Seq<Judged>, next: nat },
    Write { update: Upd },
    Create { wid: Seq<char>, f: Doc, spawn: (Seq<char>, u64, crate::entity::Ent), near: Set<Seq<char>> },
    Delete { wid: Seq<char>, f: Doc },
    Authority { wid: Seq<char>, f: Doc, change: Change },
    AddComponent { wid: Seq<char>, f: Doc },
    RemoveComponent { wid: Seq<char>, f: Doc },
    Threshold { wid: Seq<char>, f: Doc, plan: Step },
    Reserve { wid: Seq<char>, f: Doc },
    Acked { eid: Seq<char> },
    AckFirst { wid: Seq<char>, f: Doc, cell: Seq<char>, near: Set<Seq<char>> },
    Adopt { wid: Seq<char>, f: Doc, cell: Seq<char>, near: Set<Seq<char>> },
    Adopted {
        wid: Seq<char>,
        f: Doc,
        spawn: (Seq<char>, u64, crate::entity::Ent),
        near: Set<Seq<char>>,
    },
    Fold { wid: Seq<char>, h: Hand },
    FoldEnd { eid: Seq<char> },
    Show { eid: Seq<char>, comp: Seq<char>, value: Doc },
    Spread { eid: Seq<char>, comp: Seq<char>, value: Doc },
    Handoff { h: Hand },
    Parts { parts: Seq<Seq<char>>, to: Seq<char> },
    Flush,
    WritesSynced,
    Publish { updates: Seq<Upd>, next: nat },
    Zone { eid: Seq<char>, comp: Seq<char>, value: Doc },
    SyncHandoffs,
    HandoffsSynced,
    SyncFailovers,
    FailoversSynced,
    SyncMigrations,
    MigrationsSynced,
    Crossings,
    Cross { list: Seq<(Seq<char>, Seq<char>)>, next: nat },
    CrossAt { list: Seq<(Seq<char>, Seq<char>)>, next: nat },
    Depart { list: Seq<(Seq<char>, Seq<char>)>, next: nat },
    Leaving { d: Leave },
    Left { d: Leave },
    Snapshot { wid: Seq<char>, f: Doc },
    SnapshotLogged { wid: Seq<char>, f: Doc },
    DrainEnd { wid: Seq<char>, f: Doc, dispatched: u64 },
    Leases { regions: Seq<Seq<char>>, next: nat },
    Failover { failover: Failover },
    Rebalance2d,
    Migration { m: Migration },
    Reroute { eids: Seq<Seq<char>>, next: nat },
    RerouteAt { eid: Seq<char> },
    Timeouts { ids: Seq<Seq<char>>, next: nat },
    TimedOut { eid: Seq<char> },
}

impl View for Task {
    type V = Job;

    open spec fn view(&self) -> Job {
        match self {
            Task::Items { wid, comp, items, verdicts, next } => Job::Items {
                wid: wid@,
                comp: comp@,
                items: views(items@),
                verdicts: views(verdicts@),
                next: *next as nat,
            },
            Task::Write { update } => Job::Write { update: update@ },
            Task::Create { wid, f, spawn, near } => Job::Create {
                wid: wid@,
                f: f@,
                spawn: spawn@,
                near: near@,
            },
            Task::Delete { wid, f } => Job::Delete { wid: wid@, f: f@ },
            Task::Authority { wid, f, change } => Job::Authority {
                wid: wid@,
                f: f@,
                change: change@,
            },
            Task::AddComponent { wid, f } => Job::AddComponent { wid: wid@, f: f@ },
            Task::RemoveComponent { wid, f } => Job::RemoveComponent { wid: wid@, f: f@ },
            Task::Threshold { wid, f, plan } => Job::Threshold { wid: wid@, f: f@, plan: plan@ },
            Task::Reserve { wid, f } => Job::Reserve { wid: wid@, f: f@ },
            Task::Acked { eid } => Job::Acked { eid: eid@ },
            Task::AckFirst { wid, f, cell, near } => Job::AckFirst {
                wid: wid@,
                f: f@,
                cell: cell@,
                near: near@,
            },
            Task::Adopt { wid, f, cell, near } => Job::Adopt {
                wid: wid@,
                f: f@,
                cell: cell@,
                near: near@,
            },
            Task::Adopted { wid, f, spawn, near } => Job::Adopted {
                wid: wid@,
                f: f@,
                spawn: spawn@,
                near: near@,
            },
            Task::Fold { wid, h } => Job::Fold { wid: wid@, h: h@ },
            Task::FoldEnd { eid } => Job::FoldEnd { eid: eid@ },
            Task::Show { eid, comp, value } => Job::Show {
                eid: eid@,
                comp: comp@,
                value: value@,
            },
            Task::Spread { eid, comp, value } => Job::Spread {
                eid: eid@,
                comp: comp@,
                value: value@,
            },
            Task::Handoff { h } => Job::Handoff { h: h@ },
            Task::Parts { parts, to } => Job::Parts { parts: texts(parts@), to: to@ },
            Task::Flush => Job::Flush,
            Task::WritesSynced => Job::WritesSynced,
            Task::Publish { updates, next } => Job::Publish {
                updates: views(updates@),
                next: *next as nat,
            },
            Task::Zone { eid, comp, value } => Job::Zone {
                eid: eid@,
                comp: comp@,
                value: value@,
            },
            Task::SyncHandoffs => Job::SyncHandoffs,
            Task::HandoffsSynced => Job::HandoffsSynced,
            Task::SyncFailovers => Job::SyncFailovers,
            Task::FailoversSynced => Job::FailoversSynced,
            Task::SyncMigrations => Job::SyncMigrations,
            Task::MigrationsSynced => Job::MigrationsSynced,
            Task::Crossings => Job::Crossings,
            Task::Cross { list, next } => Job::Cross { list: views(list@), next: *next as nat },
            Task::CrossAt { list, next } => Job::CrossAt { list: views(list@), next: *next as nat },
            Task::Depart { list, next } => Job::Depart { list: views(list@), next: *next as nat },
            Task::Leaving { d } => Job::Leaving { d: d@ },
            Task::Left { d } => Job::Left { d: d@ },
            Task::Snapshot { wid, f } => Job::Snapshot { wid: wid@, f: f@ },
            Task::SnapshotLogged { wid, f } => Job::SnapshotLogged { wid: wid@, f: f@ },
            Task::DrainEnd { wid, f, dispatched } => Job::DrainEnd {
                wid: wid@,
                f: f@,
                dispatched: *dispatched,
            },
            Task::Leases { regions, next } => Job::Leases {
                regions: texts(regions@),
                next: *next as nat,
            },
            Task::Failover { failover } => Job::Failover { failover: failover@ },
            Task::Rebalance2d => Job::Rebalance2d,
            Task::Migration { m } => Job::Migration { m: m@ },
            Task::Reroute { eids, next } => Job::Reroute { eids: texts(eids@), next: *next as nat },
            Task::RerouteAt { eid } => Job::RerouteAt { eid: eid@ },
            Task::Timeouts { ids, next } => Job::Timeouts { ids: texts(ids@), next: *next as nat },
            Task::TimedOut { eid } => Job::TimedOut { eid: eid@ },
        }
    }
}

/// The broker's state, what it has to do, and what it needs next.
pub type Turn = (State, Seq<Job>, Want);

/// What becomes of an arrival that may be taken.
pub ghost enum Adoption {
    Stop,
    Known,
    New((Seq<char>, u64, crate::entity::Ent)),
}

impl State {
    /// What becomes of an arrival that may be taken.
    pub open spec fn adoption(self, f: Doc, cell: Seq<char>) -> Adoption {
        let eid = msg_entity(f);
        let epoch = f.get_u64("authority_epoch"@);
        match self.place_of(f, cell) {
            None => Adoption::Stop,
            Some(region) => if self.entities.contains_key(eid) {
                if self.is_same_arrival(eid, region, epoch) {
                    Adoption::Known
                } else {
                    Adoption::Stop
                }
            } else if self.deleted_entities.contains(eid) {
                Adoption::Stop
            } else {
                Adoption::New((eid, num_or(epoch, 1), arrival(f, region)))
            },
        }
    }

    /// A step on the writes of a message: the next is refused, or goes to the log.
    pub open spec fn item_step(
        self,
        rest: Seq<Job>,
        wid: Seq<char>,
        comp: Seq<char>,
        items: Seq<Entry>,
        verdicts: Seq<Judged>,
        next: nat,
        now_ms: u64,
    ) -> Turn {
        if next >= items.len() {
            (self, rest, Want::Again)
        } else {
            let i = items[next as int];
            let ask = crate::update::Ask { wid, eid: i.eid, comp, value: i.value, epoch: i.epoch };
            let v = verdict_at(verdicts, next as int);
            let more = rest.push(Job::Items { wid, comp, items, verdicts, next: next + 1 });
            if self.accepts(ask, v) {
                let update = self.write_of(ask, now_ms);
                (self, more.push(Job::Write { update }), Want::Append(update_event(update)))
            } else {
                (self.refused(ask, v), more, Want::Again)
            }
        }
    }

    /// A step that starts a transfer and goes on with other tasks.
    pub open spec fn move_step(
        self,
        rest: Seq<Job>,
        eid: Seq<char>,
        from: Seq<char>,
        to: Seq<char>,
    ) -> Turn {
        match self.begun(eid, from, to, None) {
            Begun::Done(_) => (self.crossing_begun(eid, to), rest, Want::Again),
            Begun::Log(h) => (
                self.crossing_begun(eid, to),
                rest.push(Job::Handoff { h }),
                Want::Append(handoff_event(h)),
            ),
        }
    }

    /// A step on the departure of an entity, where it can leave.
    pub open spec fn leave_step(
        self,
        rest: Seq<Job>,
        goes: bool,
        eid: Seq<char>,
        target: Seq<char>,
    ) -> Turn {
        if goes && self.can_leave(eid, target) {
            let d = self.departure_of(eid, target);
            (self, rest.push(Job::Leaving { d }), Want::Append(d.event))
        } else {
            (self, rest, Want::Again)
        }
    }

    /// To check writes of a message, from one on.
    #[verifier::opaque]
    pub open spec fn on_items(
        self,
        rest: Seq<Job>,
        wid: Seq<char>,
        comp: Seq<char>,
        items: Seq<Entry>,
        verdicts: Seq<Judged>,
        next: nat,
        env: Around,
    ) -> Turn {
        self.item_step(
            rest,
            wid,
            comp,
            items,
            verdicts,
            next,
            env.gauges.now_ms,
        )
    }

    /// To queue a write, once it is on the log.
    #[verifier::opaque]
    pub open spec fn on_write(
        self,
        rest: Seq<Job>,
        update: Upd,
        a: Reply,
    ) -> Turn {
        (self.write_staged(update, a.went()), rest, Want::Again)
    }

    /// To let a new entity live, once it is on the log.
    #[verifier::opaque]
    pub open spec fn on_create(
        self,
        rest: Seq<Job>,
        wid: Seq<char>,
        f: Doc,
        spawn: (Seq<char>, u64, crate::entity::Ent),
        near: Set<Seq<char>>,
        a: Reply,
    ) -> Turn {
        (
            self.spawned(spawn.0, spawn.2, a.went(), near).create_finished(
                wid,
                f,
                spawn.0,
                a.went(),
            ),
            rest,
            Want::Again,
        )
    }

    /// To delete an entity, once that is on the log.
    #[verifier::opaque]
    pub open spec fn on_delete(
        self,
        rest: Seq<Job>,
        wid: Seq<char>,
        f: Doc,
        a: Reply,
    ) -> Turn {
        (
            self.delete_finished(wid, f, named_entity(f), a.went()),
            rest,
            Want::Again,
        )
    }

    /// To change an authority, once that is on the log.
    #[verifier::opaque]
    pub open spec fn on_authority(
        self,
        rest: Seq<Job>,
        wid: Seq<char>,
        f: Doc,
        change: Change,
        a: Reply,
    ) -> Turn {
        (
            self.change_finished(wid, f, change, a.went()),
            rest,
            Want::Again,
        )
    }

    /// To add a component, once that is on the log.
    #[verifier::opaque]
    pub open spec fn on_add_component(
        self,
        rest: Seq<Job>,
        wid: Seq<char>,
        f: Doc,
        a: Reply,
    ) -> Turn {
        (
            self.component_added(wid, f, a.went()),
            rest,
            Want::Again,
        )
    }

    /// To remove a component, once that is on the log.
    #[verifier::opaque]
    pub open spec fn on_remove_component(
        self,
        rest: Seq<Job>,
        wid: Seq<char>,
        f: Doc,
        a: Reply,
    ) -> Turn {
        (
            self.component_removed(wid, f, a.went()),
            rest,
            Want::Again,
        )
    }

    /// To take a step of a threshold transaction, once it is on the log.
    #[verifier::opaque]
    pub open spec fn on_threshold(
        self,
        rest: Seq<Job>,
        wid: Seq<char>,
        f: Doc,
        plan: Step,
        a: Reply,
    ) -> Turn {
        (
            self.step_finished(wid, f, plan, a.went()),
            rest,
            Want::Again,
        )
    }

    /// To give out entity numbers, once that is on the log.
    #[verifier::opaque]
    pub open spec fn on_reserve(
        self,
        rest: Seq<Job>,
        wid: Seq<char>,
        f: Doc,
        a: Reply,
    ) -> Turn {
        (self.reserved(wid, f, a.went()), rest, Want::Again)
    }

    /// To record that a departure was confirmed, once that is on the log.
    #[verifier::opaque]
    pub open spec fn on_acked(
        self,
        rest: Seq<Job>,
        eid: Seq<char>,
        a: Reply,
    ) -> Turn {
        (self.acked(eid, a.went()), rest, Want::Again)
    }

    /// The same, before an arrival is taken.
    #[verifier::opaque]
    pub open spec fn on_ack_first(
        self,
        rest: Seq<Job>,
        wid: Seq<char>,
        f: Doc,
        cell: Seq<char>,
        near: Set<Seq<char>>,
        a: Reply,
    ) -> Turn {
        (
            self.acked(msg_entity(f), a.went()),
            if a.went() {
                rest.push(Job::Adopt { wid, f, cell, near })
            } else {
                rest
            },
            Want::Again,
        )
    }

    /// To place an arrival.
    #[verifier::opaque]
    pub open spec fn on_adopt(
        self,
        rest: Seq<Job>,
        wid: Seq<char>,
        f: Doc,
        cell: Seq<char>,
        near: Set<Seq<char>>,
    ) -> Turn {
        let s = self.placed(f, cell);
        match self.adoption(f, cell) {
            Adoption::Stop => (s, rest, Want::Again),
            Adoption::Known => (s.confirmed(wid, msg_entity(f)), rest, Want::Again),
            Adoption::New(spawn) => (
                s,
                rest.push(Job::Adopted { wid, f, spawn, near }),
                Want::Commit(register_event(spawn.0, spawn.2, spawn.1)),
            ),
        }
    }

    /// To take an arrival, once it is on the log.
    #[verifier::opaque]
    pub open spec fn on_adopted(
        self,
        rest: Seq<Job>,
        wid: Seq<char>,
        spawn: (Seq<char>, u64, crate::entity::Ent),
        near: Set<Seq<char>>,
        a: Reply,
    ) -> Turn {
        let s = self.spawned(spawn.0, spawn.2, a.went(), near);
        (
            if a.went() {
                s.confirmed(wid, spawn.0)
            } else {
                s
            },
            rest,
            Want::Again,
        )
    }

    /// To fold an entity, once that is on the log.
    #[verifier::opaque]
    pub open spec fn on_fold(
        self,
        rest: Seq<Job>,
        wid: Seq<char>,
        h: Hand,
        a: Reply,
    ) -> Turn {
        if a.went() {
            (
                self.handoff_staged(h, true),
                rest.push(Job::FoldEnd { eid: h.eid }).push(Job::Crossings).push(
                    Job::SyncHandoffs,
                ).push(
                    Job::Parts {
                        parts: self.parts_to_move(
                            h.eid,
                            h.to,
                            sorted(self.entities.dom()),
                        ),
                        to: h.to,
                    },
                ),
                Want::Again,
            )
        } else {
            (
                self.emitted(
                    wid,
                    update_rejected(
                        h.eid,
                        "fold"@,
                        "fold handoff failed before durable commit"@,
                    ),
                ),
                rest,
                Want::Again,
            )
        }
    }

    /// To publish where a folded entity is.
    #[verifier::opaque]
    pub open spec fn on_fold_end(
        self,
        rest: Seq<Job>,
        eid: Seq<char>,
    ) -> Turn {
        if self.entities.contains_key(eid) {
            (
                self,
                rest.push(
                    Job::Show { eid, comp: "pos"@, value: self.entities[eid].pos.doc() },
                ),
                Want::Again,
            )
        } else {
            (self, rest, Want::Again)
        }
    }

    /// To ask who sees an entity.
    #[verifier::opaque]
    pub open spec fn on_show(
        self,
        rest: Seq<Job>,
        eid: Seq<char>,
        comp: Seq<char>,
        value: Doc,
    ) -> Turn {
        (
            self,
            rest.push(Job::Spread { eid, comp, value }),
            Want::Sights { eid, comp, value },
        )
    }

    /// To bring a value to those who see it.
    #[verifier::opaque]
    pub open spec fn on_spread(
        self,
        rest: Seq<Job>,
        eid: Seq<char>,
        comp: Seq<char>,
        value: Doc,
        a: Reply,
    ) -> Turn {
        (
            self.propagated(a.seen(), eid, comp, value),
            rest,
            Want::Again,
        )
    }

    /// To queue a transfer, once it is on the log.
    #[verifier::opaque]
    pub open spec fn on_handoff(
        self,
        rest: Seq<Job>,
        h: Hand,
        a: Reply,
    ) -> Turn {
        (
            self.handoff_staged(h, a.went()),
            if a.went() {
                rest.push(
                    Job::Parts {
                        parts: self.parts_to_move(
                            h.eid,
                            h.to,
                            sorted(self.entities.dom()),
                        ),
                        to: h.to,
                    },
                )
            } else {
                rest
            },
            Want::Again,
        )
    }

    /// To have the parts of an entity follow it.
    #[verifier::opaque]
    pub open spec fn on_parts(
        self,
        rest: Seq<Job>,
        parts: Seq<Seq<char>>,
        to: Seq<char>,
    ) -> Turn {
        let (left, h) = self.next_part_of(parts, to);
        match h {
            Some(h) => (
                self,
                rest.push(Job::Parts { parts: left, to }).push(Job::Handoff { h }),
                Want::Append(handoff_event(h)),
            ),
            None => (self, rest, Want::Again),
        }
    }

    /// To make all that is queued durable and apply it.
    #[verifier::opaque]
    pub open spec fn on_flush(
        self,
        rest: Seq<Job>,
    ) -> Turn {
        let after = rest.push(Job::Crossings).push(Job::SyncMigrations).push(
            Job::SyncFailovers,
        ).push(Job::SyncHandoffs);
        if self.pending_updates.len() == 0 {
            (self, after, Want::Again)
        } else {
            (self, rest.push(Job::WritesSynced), Want::Sync)
        }
    }

    /// To close the group of writes, once the log is durable.
    #[verifier::opaque]
    pub open spec fn on_writes_synced(
        self,
        rest: Seq<Job>,
        a: Reply,
    ) -> Turn {
        (
            self.writes_synced(a.went()),
            if a.went() {
                rest.push(Job::Crossings).push(Job::SyncMigrations).push(
                    Job::SyncFailovers,
                ).push(Job::SyncHandoffs).push(
                    Job::Publish { updates: self.pending_updates, next: 0 },
                )
            } else {
                rest
            },
            Want::Again,
        )
    }

    /// To publish writes that are durable, from one on.
    #[verifier::opaque]
    pub open spec fn on_publish(
        self,
        rest: Seq<Job>,
        updates: Seq<Upd>,
        next: nat,
        env: Around,
    ) -> Turn {
        if next >= updates.len() {
            (self, rest, Want::Again)
        } else {
            let u = updates[next as int];
            (
                self.write_applied(u).renewed(u.writer, env.gauges.now_ms),
                rest.push(Job::Publish { updates, next: next + 1 }).push(
                    Job::Zone { eid: u.eid, comp: u.comp, value: u.value },
                ),
                if u.comp == "pos"@ {
                    Want::Cell(u.eid)
                } else {
                    Want::Again
                },
            )
        }
    }

    /// To place an entity that was written.
    #[verifier::opaque]
    pub open spec fn on_zone(
        self,
        rest: Seq<Job>,
        eid: Seq<char>,
        comp: Seq<char>,
        value: Doc,
        a: Reply,
    ) -> Turn {
        let s = self.zoned(eid, comp, a.cell());
        let more = rest.push(Job::Show { eid, comp, value });
        match self.zone_target(eid, comp, a.cell()) {
            Some(to) => s.move_step(more, eid, self.entities[eid].region, to),
            None => (s, more, Want::Again),
        }
    }

    /// To make the queued transfers durable.
    #[verifier::opaque]
    pub open spec fn on_sync_handoffs(
        self,
        rest: Seq<Job>,
    ) -> Turn {
        if self.pending_handoffs.len() == 0 {
            (self, rest, Want::Again)
        } else {
            (self, rest.push(Job::HandoffsSynced), Want::Sync)
        }
    }

    /// To apply them, once they are.
    #[verifier::opaque]
    pub open spec fn on_handoffs_synced(
        self,
        rest: Seq<Job>,
        a: Reply,
    ) -> Turn {
        (self.handoffs_synced(a.went()), rest, Want::Again)
    }

    /// To make the queued failovers durable.
    #[verifier::opaque]
    pub open spec fn on_sync_failovers(
        self,
        rest: Seq<Job>,
    ) -> Turn {
        if self.pending_failovers.len() == 0 {
            (self, rest, Want::Again)
        } else {
            (self, rest.push(Job::FailoversSynced), Want::Sync)
        }
    }

    /// To apply them, once they are.
    #[verifier::opaque]
    pub open spec fn on_failovers_synced(
        self,
        rest: Seq<Job>,
        a: Reply,
    ) -> Turn {
        (self.failovers_synced(a.went()), rest, Want::Again)
    }

    /// To make the queued migrations durable.
    #[verifier::opaque]
    pub open spec fn on_sync_migrations(
        self,
        rest: Seq<Job>,
    ) -> Turn {
        if self.pending_block_migrations.len() == 0 {
            (self, rest, Want::Again)
        } else {
            (self, rest.push(Job::MigrationsSynced), Want::Sync)
        }
    }

    /// To apply them, once they are.
    #[verifier::opaque]
    pub open spec fn on_migrations_synced(
        self,
        rest: Seq<Job>,
        a: Reply,
    ) -> Turn {
        (self.migrations_synced(a.went()), rest, Want::Again)
    }

    /// To look at the crossings that wait.
    #[verifier::opaque]
    pub open spec fn on_crossings(
        self,
        rest: Seq<Job>,
    ) -> Turn {
        (
            State { pending_remote_handoffs: Seq::empty(), ..self },
            rest.push(Job::Cross { list: self.pending_remote_handoffs, next: 0 }),
            Want::Again,
        )
    }

    /// To look at one of them.
    #[verifier::opaque]
    pub open spec fn on_cross(
        self,
        rest: Seq<Job>,
        list: Seq<(Seq<char>, Seq<char>)>,
        next: nat,
    ) -> Turn {
        if next >= list.len() {
            (self, rest, Want::Again)
        } else {
            (self, rest.push(Job::CrossAt { list, next }), Want::Cell(list[next as int].0))
        }
    }

    /// To let it go, once the place of the entity is known.
    #[verifier::opaque]
    pub open spec fn on_cross_at(
        self,
        rest: Seq<Job>,
        list: Seq<(Seq<char>, Seq<char>)>,
        next: nat,
        a: Reply,
    ) -> Turn {
        if next >= list.len() {
            (self, rest, Want::Again)
        } else {
            let (eid, target) = list[next as int];
            self.leave_step(
                rest.push(Job::Cross { list, next: next + 1 }),
                self.is_current(eid, target, a.cell()),
                eid,
                target,
            )
        }
    }

    /// To send entities off, from one on.
    #[verifier::opaque]
    pub open spec fn on_depart(
        self,
        rest: Seq<Job>,
        list: Seq<(Seq<char>, Seq<char>)>,
        next: nat,
    ) -> Turn {
        if next >= list.len() {
            (self, rest, Want::Again)
        } else {
            let (eid, target) = list[next as int];
            self.leave_step(
                rest.push(Job::Depart { list, next: next + 1 }),
                true,
                eid,
                target,
            )
        }
    }

    /// To make a departure durable, once it is on the log.
    #[verifier::opaque]
    pub open spec fn on_leaving(
        self,
        rest: Seq<Job>,
        d: Leave,
        a: Reply,
    ) -> Turn {
        if a.went() {
            (self.departure_written(d), rest.push(Job::Left { d }), Want::Sync)
        } else {
            (self, rest, Want::Again)
        }
    }

    /// To let an entity go, once that is durable.
    #[verifier::opaque]
    pub open spec fn on_left(
        self,
        rest: Seq<Job>,
        d: Leave,
        a: Reply,
        env: Around,
    ) -> Turn {
        (
            if a.went() {
                self.departed(d, env.gauges.now_ms)
            } else {
                self
            },
            rest,
            Want::Again,
        )
    }

    /// To mark a snapshot.
    #[verifier::opaque]
    pub open spec fn on_snapshot(
        self,
        rest: Seq<Job>,
        wid: Seq<char>,
        f: Doc,
        env: Around,
    ) -> Turn {
        if self.wal.degraded {
            (
                self.emitted(
                    wid,
                    request_rejected(
                        request_name(f),
                        "wal_degraded: snapshot cut cannot be made while durable queues are unflushed"@,
                    ),
                ),
                rest,
                Want::Again,
            )
        } else {
            (
                self,
                rest.push(Job::SnapshotLogged { wid, f }),
                Want::Commit(marker_event(f, env.gauges.now_ms)),
            )
        }
    }

    /// To answer with it, once it is on the log.
    #[verifier::opaque]
    pub open spec fn on_snapshot_logged(
        self,
        rest: Seq<Job>,
        wid: Seq<char>,
        f: Doc,
        a: Reply,
        env: Around,
    ) -> Turn {
        (
            self.snapshot_finished(
                wid,
                f,
                a.went(),
                env.broker_id,
                env.registry_version,
                env.gauges.now_ms,
            ),
            rest,
            Want::Again,
        )
    }

    /// To answer a request to drain.
    #[verifier::opaque]
    pub open spec fn on_drain_end(
        self,
        rest: Seq<Job>,
        wid: Seq<char>,
        f: Doc,
        dispatched: u64,
    ) -> Turn {
        (
            self.emitted(wid, self.drain_ack(f, dispatched)),
            rest,
            Want::Again,
        )
    }

    /// To look at leases, from one on.
    #[verifier::opaque]
    pub open spec fn on_leases(
        self,
        rest: Seq<Job>,
        regions: Seq<Seq<char>>,
        next: nat,
        env: Around,
    ) -> Turn {
        let (s, i, f) = self.leases_checked(regions, next as int, env.gauges.now_ms);
        match f {
            Some(f) => (
                s,
                rest.push(Job::Leases { regions, next: i as nat }).push(
                    Job::Failover { failover: f },
                ),
                Want::Append(failover_event(f)),
            ),
            None => (s, rest, Want::Again),
        }
    }

    /// To queue a failover, once it is on the log.
    #[verifier::opaque]
    pub open spec fn on_failover(
        self,
        rest: Seq<Job>,
        failover: Failover,
        a: Reply,
    ) -> Turn {
        (
            self.failover_staged(failover, a.went()),
            rest,
            Want::Again,
        )
    }

    /// To even out the grid.
    #[verifier::opaque]
    pub open spec fn on_rebalance_2d(
        self,
        rest: Seq<Job>,
    ) -> Turn {
        match self.evening_migration() {
            Some(m) => (
                self,
                rest.push(Job::Migration { m }),
                Want::Append(migration_event(m)),
            ),
            None => (self, rest, Want::Again),
        }
    }

    /// To queue a migration, once it is on the log.
    #[verifier::opaque]
    pub open spec fn on_migration(
        self,
        rest: Seq<Job>,
        m: Migration,
        a: Reply,
    ) -> Turn {
        (self.migration_staged(m, a.went()), rest, Want::Again)
    }

    /// To route entities anew, from one on.
    #[verifier::opaque]
    pub open spec fn on_reroute(
        self,
        rest: Seq<Job>,
        eids: Seq<Seq<char>>,
        next: nat,
    ) -> Turn {
        if next >= eids.len() {
            (self, rest, Want::Again)
        } else {
            (
                self,
                rest.push(Job::Reroute { eids, next: next + 1 }).push(
                    Job::RerouteAt { eid: eids[next as int] },
                ),
                Want::Cell(eids[next as int]),
            )
        }
    }

    /// To route one anew, once its place is known.
    #[verifier::opaque]
    pub open spec fn on_reroute_at(
        self,
        rest: Seq<Job>,
        eid: Seq<char>,
        a: Reply,
    ) -> Turn {
        match self.route_of(eid, a.cell()) {
            Some(to) => self.move_step(rest, eid, self.entities[eid].region, to),
            None => (self, rest, Want::Again),
        }
    }

    /// To abort transactions that timed out, from one on.
    #[verifier::opaque]
    pub open spec fn on_timeouts(
        self,
        rest: Seq<Job>,
        ids: Seq<Seq<char>>,
        next: nat,
    ) -> Turn {
        if next >= ids.len() {
            (self, rest, Want::Again)
        } else {
            let eid = ids[next as int];
            let more = rest.push(Job::Timeouts { ids, next: next + 1 });
            if self.entities.contains_key(eid) && self.entities[eid].components.contains_key(
                "threshold.tx"@,
            ) {
                (
                    self,
                    more.push(Job::TimedOut { eid }),
                    Want::Commit(timeout_event(eid, self.entities[eid])),
                )
            } else {
                (self, more, Want::Again)
            }
        }
    }

    /// To abort one, once that is on the log.
    #[verifier::opaque]
    pub open spec fn on_timed_out(
        self,
        rest: Seq<Job>,
        eid: Seq<char>,
        a: Reply,
    ) -> Turn {
        (self.timeout_finished(eid, a.went()), rest, Want::Again)
    }

    /// The state, the tasks and the need after a step.
    pub open spec fn stepped(self, jobs: Seq<Job>, a: Reply, env: Around) -> Turn {
        if jobs.len() == 0 {
            (self, jobs, Want::Done)
        } else {
            let rest = jobs.drop_last();
            match jobs.last() {
                Job::Items { wid, comp, items, verdicts, next } => self.on_items(rest, wid, comp, items, verdicts, next, env),
                Job::Write { update } => self.on_write(rest, update, a),
                Job::Create { wid, f, spawn, near } => self.on_create(rest, wid, f, spawn, near, a),
                Job::Delete { wid, f } => self.on_delete(rest, wid, f, a),
                Job::Authority { wid, f, change } => self.on_authority(rest, wid, f, change, a),
                Job::AddComponent { wid, f } => self.on_add_component(rest, wid, f, a),
                Job::RemoveComponent { wid, f } => self.on_remove_component(rest, wid, f, a),
                Job::Threshold { wid, f, plan } => self.on_threshold(rest, wid, f, plan, a),
                Job::Reserve { wid, f } => self.on_reserve(rest, wid, f, a),
                Job::Acked { eid } => self.on_acked(rest, eid, a),
                Job::AckFirst { wid, f, cell, near } => self.on_ack_first(rest, wid, f, cell, near, a),
                Job::Adopt { wid, f, cell, near } => self.on_adopt(rest, wid, f, cell, near),
                Job::Adopted { wid, spawn, near, .. } => self.on_adopted(rest, wid, spawn, near, a),
                Job::Fold { wid, h } => self.on_fold(rest, wid, h, a),
                Job::FoldEnd { eid } => self.on_fold_end(rest, eid),
                Job::Show { eid, comp, value } => self.on_show(rest, eid, comp, value),
                Job::Spread { eid, comp, value } => self.on_spread(rest, eid, comp, value, a),
                Job::Handoff { h } => self.on_handoff(rest, h, a),
                Job::Parts { parts, to } => self.on_parts(rest, parts, to),
                Job::Flush => self.on_flush(rest),
                Job::WritesSynced => self.on_writes_synced(rest, a),
                Job::Publish { updates, next } => self.on_publish(rest, updates, next, env),
                Job::Zone { eid, comp, value } => self.on_zone(rest, eid, comp, value, a),
                Job::SyncHandoffs => self.on_sync_handoffs(rest),
                Job::HandoffsSynced => self.on_handoffs_synced(rest, a),
                Job::SyncFailovers => self.on_sync_failovers(rest),
                Job::FailoversSynced => self.on_failovers_synced(rest, a),
                Job::SyncMigrations => self.on_sync_migrations(rest),
                Job::MigrationsSynced => self.on_migrations_synced(rest, a),
                Job::Crossings => self.on_crossings(rest),
                Job::Cross { list, next } => self.on_cross(rest, list, next),
                Job::CrossAt { list, next } => self.on_cross_at(rest, list, next, a),
                Job::Depart { list, next } => self.on_depart(rest, list, next),
                Job::Leaving { d } => self.on_leaving(rest, d, a),
                Job::Left { d } => self.on_left(rest, d, a, env),
                Job::Snapshot { wid, f } => self.on_snapshot(rest, wid, f, env),
                Job::SnapshotLogged { wid, f } => self.on_snapshot_logged(rest, wid, f, a, env),
                Job::DrainEnd { wid, f, dispatched } => self.on_drain_end(rest, wid, f, dispatched),
                Job::Leases { regions, next } => self.on_leases(rest, regions, next, env),
                Job::Failover { failover } => self.on_failover(rest, failover, a),
                Job::Rebalance2d => self.on_rebalance_2d(rest),
                Job::Migration { m } => self.on_migration(rest, m, a),
                Job::Reroute { eids, next } => self.on_reroute(rest, eids, next),
                Job::RerouteAt { eid } => self.on_reroute_at(rest, eid, a),
                Job::Timeouts { ids, next } => self.on_timeouts(rest, ids, next),
                Job::TimedOut { eid } => self.on_timed_out(rest, eid, a),
            }
        }
    }
}

/// Whether a task waits for the log.
pub open spec fn waits_for_log(j: Job) -> bool {
    j is Write || j is Create || j is Delete || j is Authority || j is AddComponent
        || j is RemoveComponent || j is Threshold || j is Reserve || j is Acked || j is AckFirst
        || j is Adopted || j is Fold || j is Handoff || j is WritesSynced || j is HandoffsSynced
        || j is FailoversSynced || j is MigrationsSynced || j is Leaving || j is Left
        || j is SnapshotLogged || j is Failover || j is Migration || j is TimedOut
}

/// Nothing happens that the log does not have: where a task waits for the log and the log
/// fails, no entity comes, goes or changes, none is deleted for good, no region changes
/// hands, no number is given out, and no snapshot is taken.
pub proof fn law_nothing_without_the_log(s: State, jobs: Seq<Job>, a: Reply, env: Around)
    requires
        jobs.len() > 0,
        waits_for_log(jobs.last()),
        !a.went(),
    ensures
        ({
            let (t, left, want) = s.stepped(jobs, a, env);
            &&& t.entities == s.entities
            &&& t.deleted_entities == s.deleted_entities
            &&& t.region_worker == s.region_worker
            &&& t.pending_mesh == s.pending_mesh
            &&& t.entity_id_reservations == s.entity_id_reservations
            &&& t.wal == s.wal
            &&& left == jobs.drop_last()
            &&& want == Want::Again
        }),
{
    lemma_log_requests(s, jobs, a, env);
    lemma_log_moves(s, jobs, a, env);
    lemma_log_barriers(s, jobs, a, env);
}

proof fn lemma_log_requests(s: State, jobs: Seq<Job>, a: Reply, env: Around)
    requires
        jobs.len() > 0,
        !a.went(),
    ensures
        ({
            let j = jobs.last();
            let (t, left, want) = s.stepped(jobs, a, env);
            j is Write || j is Create || j is Delete || j is Authority || j is AddComponent
                || j is RemoveComponent || j is Threshold || j is Reserve || j is Acked
                || j is AckFirst || j is Adopted ==> {
                &&& t.entities == s.entities
                &&& t.deleted_entities == s.deleted_entities
                &&& t.region_worker == s.region_worker
                &&& t.pending_mesh == s.pending_mesh
                &&& t.entity_id_reservations == s.entity_id_reservations
                &&& t.wal == s.wal
                &&& left == jobs.drop_last()
                &&& want == Want::Again
            }
        }),
{
    reveal(State::on_write);
    reveal(State::on_create);
    reveal(State::on_delete);
    reveal(State::on_authority);
    reveal(State::on_add_component);
    reveal(State::on_remove_component);
    reveal(State::on_threshold);
    reveal(State::on_reserve);
    reveal(State::on_acked);
    reveal(State::on_ack_first);
    reveal(State::on_adopted);
}

proof fn lemma_log_moves(s: State, jobs: Seq<Job>, a: Reply, env: Around)
    requires
        jobs.len() > 0,
        !a.went(),
    ensures
        ({
            let j = jobs.last();
            let (t, left, want) = s.stepped(jobs, a, env);
            j is Fold || j is Handoff || j is Leaving || j is Left || j is SnapshotLogged
                || j is Failover || j is Migration || j is TimedOut ==> {
                &&& t.entities == s.entities
                &&& t.deleted_entities == s.deleted_entities
                &&& t.region_worker == s.region_worker
                &&& t.pending_mesh == s.pending_mesh
                &&& t.entity_id_reservations == s.entity_id_reservations
                &&& t.wal == s.wal
                &&& left == jobs.drop_last()
                &&& want == Want::Again
            }
        }),
{
    reveal(State::on_fold);
    reveal(State::on_handoff);
    reveal(State::on_leaving);
    reveal(State::on_left);
    reveal(State::on_snapshot_logged);
    reveal(State::on_failover);
    reveal(State::on_migration);
    reveal(State::on_timed_out);
}

proof fn lemma_log_barriers(s: State, jobs: Seq<Job>, a: Reply, env: Around)
    requires
        jobs.len() > 0,
        !a.went(),
    ensures
        ({
            let j = jobs.last();
            let (t, left, want) = s.stepped(jobs, a, env);
            j is WritesSynced || j is HandoffsSynced || j is FailoversSynced || j is MigrationsSynced
                ==> {
                &&& t.entities == s.entities
                &&& t.deleted_entities == s.deleted_entities
                &&& t.region_worker == s.region_worker
                &&& t.pending_mesh == s.pending_mesh
                &&& t.entity_id_reservations == s.entity_id_reservations
                &&& t.wal == s.wal
                &&& left == jobs.drop_last()
                &&& want == Want::Again
            }
        }),
{
    reveal(State::on_writes_synced);
    reveal(State::on_handoffs_synced);
    reveal(State::on_failovers_synced);
    reveal(State::on_migrations_synced);
    crate::update::lemma_refusals_only_tell(
        State { pending_updates: Seq::empty(), ..s },
        s.pending_updates,
    );
    crate::handoff::law_unsynced_handoff_keeps_owner(s);
    crate::failover::law_unsynced_moves_nothing(s);
}

/// An arrival is taken once: while the entity is here, the same arrival is confirmed again
/// or refused, and never taken a second time.
pub proof fn law_arrival_is_taken_once(s: State, f: Doc, cell: Seq<char>)
    requires
        s.entities.contains_key(msg_entity(f)),
    ensures
        !(s.adoption(f, cell) is New),
{
}

}
