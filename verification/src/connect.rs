//! Peers that connect and disconnect.

use vstd::prelude::*;
use crate::claims::{
    broker_owned_attributes, broker_owned_connect_region, broker_owned_regions, peer_role_for,
    resolve_connect_claims, resolved, role_of, strip_peer_declared_broker_owned_attributes,
    PeerRole,
};
use crate::clock::plus;
use crate::doc::{docs, Doc, Json, Num};
use crate::entity::as_opt_str;
use crate::float::Float;
use crate::json::text_or;
use crate::order::sorted;
use crate::sight::checkout_all;
use crate::state::{Peer, ServerState, State, Worker};
use crate::strmap::{texts, StrMap, StrSet};
use crate::text::str_eq;

verus! {

broadcast use {crate::doc::group_json, crate::strmap::group_map};

/// The version of the wire format.
pub const PROTOCOL_VERSION: u64 = 1;

/// The oldest version of the wire format that is understood.
pub const MIN_PROTO: u64 = 1;

/// The attributes that a peer declares: the texts of a list.
pub open spec fn declared_attributes(f: Doc) -> Set<Seq<char>> {
    match f.get("attributes"@) {
        Some(Doc::Arr(s)) => Set::new(
            |a: Seq<char>| exists|i: int| 0 <= i < s.len() && #[trigger] s[i] == Doc::Str(a),
        ),
        _ => Set::empty(),
    }
}

fn read_attributes(f: &Json) -> (r: StrSet)
    ensures
        r@ == declared_attributes(f@),
{
    let mut out = StrSet::new();
    let v = match f.get("attributes") {
        Some(a) => match a.as_array() {
            Some(v) => v,
            None => return out,
        },
        None => return out,
    };
    let ghost s = docs(v@);
    let mut i: usize = 0;
    while i < v.len()
        invariant
            i <= v.len(),
            s == docs(v@),
            f@.get("attributes"@) == Some(Doc::Arr(s)),
            forall|a: Seq<char>|
                #[trigger] out@.contains(a) <==> exists|j: int|
                    0 <= j < i && #[trigger] s[j] == Doc::Str(a),
        decreases v.len() - i,
    {
        let ghost before = out@;
        assert(s[i as int] == v@[i as int]@);
        if let Some(t) = v[i].as_str() {
            out.insert(t);
        }
        i = i + 1;
        proof {
            assert forall|a: Seq<char>|
                #[trigger] out@.contains(a) <==> exists|j: int|
                    0 <= j < i && #[trigger] s[j] == Doc::Str(a) by {
                if before.contains(a) {
                    let j = choose|j: int| 0 <= j < i - 1 && #[trigger] s[j] == Doc::Str(a);
                    assert(s[j] == Doc::Str(a));
                }
                if out@.contains(a) && !before.contains(a) {
                    assert(s[i - 1] == Doc::Str(a));
                }
            }
        }
    }
    proof {
        assert(out@ =~= declared_attributes(f@));
    }
    out
}

/// What a peer is told whose wire format is not understood.
pub open spec fn version_reject(proto: u64) -> Doc {
    Doc::Obj(
        map![
            "op"@ => Doc::Str("VersionReject"@),
            "reason"@ => Doc::Str("incompatible protocol version"@),
            "peer_proto"@ => Doc::Num(Num::Pos(proto)),
            "broker_proto"@ => Doc::Num(Num::Pos(PROTOCOL_VERSION)),
            "min_proto"@ => Doc::Num(Num::Pos(MIN_PROTO))],
    )
}

/// What a peer is told that is not let in.
pub open spec fn auth_reject(wid: Seq<char>, reason: Seq<char>) -> Doc {
    Doc::Obj(
        map![
            "op"@ => Doc::Str("AuthReject"@),
            "worker_id"@ => Doc::Str(wid),
            "error"@ => Doc::Str("auth_error"@),
            "reason"@ => Doc::Str(reason)],
    )
}

/// What becomes of a connection.
pub enum Connect {
    /// It is no connection of a peer.
    Ignore,
    /// It is refused, and told so.
    Reject { wid: String, reply: Json, reason: String, region: String, attributes: StrSet },
    /// It is a peer.
    Accept { wid: String, region: String, attributes: StrSet },
}

/// A `Connect` by its views.
pub ghost enum Admission {
    Ignore,
    Reject {
        wid: Seq<char>,
        reply: Doc,
        reason: Seq<char>,
        region: Seq<char>,
        attributes: Set<Seq<char>>,
    },
    Accept { wid: Seq<char>, region: Seq<char>, attributes: Set<Seq<char>> },
}

impl View for Connect {
    type V = Admission;

    open spec fn view(&self) -> Admission {
        match self {
            Connect::Ignore => Admission::Ignore,
            Connect::Reject { wid, reply, reason, region, attributes } => Admission::Reject {
                wid: wid@,
                reply: reply@,
                reason: reason@,
                region: region@,
                attributes: attributes@,
            },
            Connect::Accept { wid, region, attributes } => Admission::Accept {
                wid: wid@,
                region: region@,
                attributes: attributes@,
            },
        }
    }
}

/// The reason that a region needs a claim.
pub open spec fn claim_needed() -> Seq<char> {
    "broker-owned connect region requires token-bound claim"@
}

impl State {
    /// What becomes of a connection: it is told apart by its first message, its wire
    /// format, its token, and what it asks to be. A region that only a token grants
    /// is refused to a peer without a claim, and such attributes are taken from it.
    pub open spec fn admission(self, f: Doc) -> Admission {
        let wid = f.get_str("worker_id"@);
        let region = f.get_str("region"@);
        let proto = f.get_u64("proto"@);
        let attributes = declared_attributes(f);
        if f.get_str("op"@) != Some("WorkerConnect"@) || wid is None {
            Admission::Ignore
        } else if proto is Some && (proto->0 < MIN_PROTO || proto->0 > PROTOCOL_VERSION) {
            Admission::Reject {
                wid: wid->0,
                reply: version_reject(proto->0),
                reason: "version_reject"@,
                region: text_or(region, "OBS"@),
                attributes,
            }
        } else {
            match resolved(
                self.connect_auth_token,
                self.connect_auth_claims,
                f.get_str("auth_token"@),
                region,
                attributes,
            ) {
                Err(reason) => Admission::Reject {
                    wid: wid->0,
                    reply: auth_reject(wid->0, reason),
                    reason,
                    region: text_or(region, "OBS"@),
                    attributes,
                },
                Ok(Some(c)) => Admission::Accept {
                    wid: wid->0,
                    region: c.region,
                    attributes: c.attributes,
                },
                Ok(None) => if region is Some && broker_owned_regions().contains(region->0) {
                    Admission::Reject {
                        wid: wid->0,
                        reply: auth_reject(wid->0, claim_needed()),
                        reason: claim_needed(),
                        region: text_or(region, "OBS"@),
                        attributes,
                    }
                } else {
                    Admission::Accept {
                        wid: wid->0,
                        region: text_or(region, "OBS"@),
                        attributes: attributes.difference(broker_owned_attributes()),
                    }
                },
            }
        }
    }
}

fn auth_reject_json(wid: &str, reason: &str) -> (r: Json)
    ensures
        r@ == auth_reject(wid@, reason@),
{
    StrMap::new().with("op", Json::str("AuthReject")).with("worker_id", Json::str(wid)).with(
        "error",
        Json::str("auth_error"),
    ).with("reason", Json::str(reason)).done()
}

/// Decides on a connection by its first message.
pub fn decide_connect(s: &ServerState, first: &Json) -> (r: Connect)
    ensures
        r@ == s@.admission(first@),
{
    match first.get_str("op") {
        Some(op) => if !str_eq(op, "WorkerConnect") {
            return Connect::Ignore;
        },
        None => return Connect::Ignore,
    }
    let wid = match first.get_str("worker_id") {
        Some(w) => w,
        None => return Connect::Ignore,
    };
    let requested = first.get_str("region");
    let region: &str = match requested {
        Some(r) => r,
        None => "OBS",
    };
    let mut attributes = read_attributes(first);
    if let Some(proto) = first.get_u64("proto") {
        if proto < MIN_PROTO || proto > PROTOCOL_VERSION {
            let reply = StrMap::new().with("op", Json::str("VersionReject")).with(
                "reason",
                Json::str("incompatible protocol version"),
            ).with("peer_proto", Json::u64(proto)).with("broker_proto", Json::u64(PROTOCOL_VERSION)).with(
                "min_proto",
                Json::u64(MIN_PROTO),
            ).done();
            return Connect::Reject {
                wid: wid.to_owned(),
                reply,
                reason: "version_reject".to_owned(),
                region: region.to_owned(),
                attributes,
            };
        }
    }
    match resolve_connect_claims(
        as_opt_str(&s.connect_auth_token),
        &s.connect_auth_claims,
        first.get_str("auth_token"),
        requested,
        &attributes,
    ) {
        Err(reason) => Connect::Reject {
            wid: wid.to_owned(),
            reply: auth_reject_json(wid, reason.as_str()),
            reason,
            region: region.to_owned(),
            attributes,
        },
        Ok(Some(claims)) => Connect::Accept {
            wid: wid.to_owned(),
            region: claims.region,
            attributes: claims.attributes,
        },
        Ok(None) => {
            let owned: bool = match requested {
                Some(r) => broker_owned_connect_region(r),
                None => false,
            };
            if owned {
                let reason = "broker-owned connect region requires token-bound claim";
                return Connect::Reject {
                    wid: wid.to_owned(),
                    reply: auth_reject_json(wid, reason),
                    reason: reason.to_owned(),
                    region: region.to_owned(),
                    attributes,
                };
            }
            strip_peer_declared_broker_owned_attributes(&mut attributes);
            Connect::Accept { wid: wid.to_owned(), region: region.to_owned(), attributes }
        },
    }
}

/// A peer that has just connected.
pub open spec fn fresh_peer(region: Seq<char>, attributes: Set<Seq<char>>) -> Peer {
    Peer {
        region,
        role: role_of(region, attributes),
        attributes,
        view: Set::empty(),
        authority_epochs: Map::empty(),
        aoi_center: None,
        aoi_radius: None,
        full_radius: None,
        coarse_rate: 1,
        coarse_grid: 0,
        fidelity_seq: Map::empty(),
        ingress_rejected: 0,
    }
}

impl State {
    /// Whether another peer holds a live lease of a region.
    pub open spec fn is_held(self, region: Seq<char>, wid: Seq<char>, now_ms: u64) -> bool {
        &&& self.region_worker.contains_key(region)
        &&& self.region_worker[region] != wid
        &&& self.region_expires.contains_key(region)
        &&& self.region_expires[region] > now_ms
    }

    /// The state with a peer in its place: a standby waits, a worker leases its
    /// region unless another holds it, and the others lease nothing.
    pub open spec fn leased(
        self,
        wid: Seq<char>,
        region: Seq<char>,
        role: PeerRole,
        now_ms: u64,
    ) -> State {
        if role != PeerRole::Worker {
            self
        } else if region == "STANDBY"@ {
            State { standbys: self.standbys.push(wid), ..self }
        } else if self.is_held(region, wid, now_ms) {
            self
        } else {
            State {
                region_worker: self.region_worker.insert(region, wid),
                region_expires: self.region_expires.insert(
                    region,
                    plus(now_ms, self.lease_ttl_ms),
                ),
                ..self
            }
        }
    }

    /// The state after a peer was registered, put in its place, and shown what it
    /// sees.
    pub open spec fn registered(
        self,
        wid: Seq<char>,
        region: Seq<char>,
        attributes: Set<Seq<char>>,
        near: Set<Seq<char>>,
        now_ms: u64,
    ) -> State {
        let s = (State {
            workers: self.workers.insert(wid, fresh_peer(region, attributes)),
            ..self
        }).leased(wid, region, role_of(region, attributes), now_ms);
        s.checked_out(wid, sorted(s.entities.dom()), near)
    }
}

fn lease_region(s: &mut ServerState, wid: &str, region: &str, role: PeerRole, now_ms: u64)
    ensures
        final(s)@ == old(s)@.leased(wid@, region@, role, now_ms),
{
    if role != PeerRole::Worker {
        return;
    }
    if str_eq(region, "STANDBY") {
        let ghost before = texts(s.standbys@);
        s.standbys.push(wid.to_owned());
        proof {
            assert(texts(s.standbys@) =~= before.push(wid@));
        }
        return;
    }
    let other: bool = match s.region_worker.get(region) {
        Some(o) => !str_eq(o.as_str(), wid),
        None => false,
    };
    let live: bool = match s.region_expires.get(region) {
        Some(t) => *t > now_ms,
        None => false,
    };
    if other && live {
        return;
    }
    let until: u64 = now_ms.saturating_add(s.lease_ttl_ms);
    s.region_worker.insert(region, wid.to_owned());
    s.region_expires.insert(region, until);
}

/// Registers a peer, puts it in its place, and shows it what it sees.
pub fn register_peer(
    s: &mut ServerState,
    wid: &str,
    region: &str,
    attributes: StrSet,
    near: &StrSet,
    now_ms: u64,
)
    ensures
        final(s)@ == old(s)@.registered(wid@, region@, attributes@, near@, now_ms),
{
    let role = peer_role_for(region, &attributes);
    let w = Worker {
        region: region.to_owned(),
        role,
        attributes,
        view: StrSet::new(),
        authority_epochs: StrMap::new(),
        aoi_center: None,
        aoi_radius: None,
        fidelity_full_radius: None,
        fidelity_coarse_rate: 1,
        fidelity_coarse_grid: Float::zero(),
        fidelity_seq: StrMap::new(),
        ingress_rejected: 0,
    };
    proof {
        assert(w@ =~= fresh_peer(region@, attributes@));
    }
    s.workers.insert(wid, w);
    lease_region(s, wid, region, role, now_ms);
    checkout_all(s, wid, near);
}

/// Takes a peer out that has disconnected.
pub fn disconnect_peer(s: &mut ServerState, wid: &str)
    ensures
        final(s)@ == (State { workers: old(s)@.workers.remove(wid@), ..old(s)@ }),
{
    s.workers.remove(wid);
}

/// The token that opens a neighbour's door for a region: that of a claim for it, or
/// else the shared one.
pub fn auth_token_for_region(s: &ServerState, region: &str) -> (r: Option<String>)
    ensures
        match r {
            Some(t) => (s@.connect_auth_claims.contains_key(t@) && s@.connect_auth_claims[t@].region
                == region@) || ((forall|k: Seq<char>| #[trigger]
                s@.connect_auth_claims.contains_key(k) ==> s@.connect_auth_claims[k].region
                    != region@) && s@.connect_auth_token == Some(t@)),
            None => (forall|k: Seq<char>| #[trigger]
                s@.connect_auth_claims.contains_key(k) ==> s@.connect_auth_claims[k].region
                    != region@) && s@.connect_auth_token is None,
        },
{
    let n: usize = s.connect_auth_claims.len();
    let ghost order = s.connect_auth_claims.order();
    let mut i: usize = 0;
    while i < n
        invariant
            i <= n == order.len(),
            order == s.connect_auth_claims.order(),
            forall|j: int|
                0 <= j < i ==> s@.connect_auth_claims[#[trigger] order[j]].region != region@,
        decreases n - i,
    {
        let c = s.connect_auth_claims.value_at(i);
        if str_eq(c.region.as_str(), region) {
            let k = s.connect_auth_claims.key_at(i);
            return Some(k.to_owned());
        }
        i = i + 1;
    }
    proof {
        assert forall|k: Seq<char>| #[trigger] s@.connect_auth_claims.contains_key(k) implies
            s@.connect_auth_claims[k].region != region@ by {
            assert(order.to_set().contains(k));
            let j = choose|j: int| 0 <= j < order.len() && order[j] == k;
            assert(s@.connect_auth_claims[order[j]].region != region@);
        }
    }
    crate::entity::dup_opt(&s.connect_auth_token)
}

/// Nobody steals a region: while another peer's lease is live, a peer that connects
/// does not become its holder.
pub proof fn law_live_lease_is_kept(
    s: State,
    wid: Seq<char>,
    region: Seq<char>,
    role: PeerRole,
    now_ms: u64,
)
    requires
        s.is_held(region, wid, now_ms),
    ensures
        s.leased(wid, region, role, now_ms).region_worker == s.region_worker,
{
}

/// Only workers hold regions.
pub proof fn law_only_workers_lease(
    s: State,
    wid: Seq<char>,
    region: Seq<char>,
    role: PeerRole,
    now_ms: u64,
)
    requires
        role != PeerRole::Worker,
    ensures
        s.leased(wid, region, role, now_ms) == s,
{
}

/// Privileges come from tokens: a peer that is let in without a claim has none of
/// the attributes that only a token grants, whatever it declares.
pub proof fn law_privileges_come_from_claims(s: State, f: Doc, attr: Seq<char>)
    requires
        s.connect_auth_claims.dom().len() == 0,
        s.admission(f) is Accept,
        broker_owned_attributes().contains(attr),
    ensures
        !s.admission(f)->Accept_attributes.contains(attr),
{
}

}
