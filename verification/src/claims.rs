//! Who a peer is: roles, attributes, and the claims that a token carries.

use vstd::prelude::*;
use crate::strmap::{Dup, StrMap, StrSet};
use crate::text::{
    chars_of, find_char, find_from, opt_text, pieces, split, split_range, str_eq, text_of,
    trim_range, trimmed,
};

verus! {

/// What a token grants: a region and attributes.
pub struct PeerClaims {
    pub region: String,
    pub attributes: StrSet,
}

/// A `PeerClaims` by its views.
#[verifier::ext_equal]
pub ghost struct Claims {
    pub region: Seq<char>,
    pub attributes: Set<Seq<char>>,
}

impl View for PeerClaims {
    type V = Claims;

    open spec fn view(&self) -> Claims {
        Claims { region: self.region@, attributes: self.attributes@ }
    }
}

impl Dup for PeerClaims {
    fn dup(&self) -> (r: PeerClaims) {
        PeerClaims { region: self.region.clone(), attributes: self.attributes.dup() }
    }
}

/// The part that a peer plays.
#[derive(Clone, Copy, Debug, PartialEq, Eq, Structural)]
pub enum PeerRole {
    Worker,
    Client,
    Observer,
    Mesh,
}

impl PeerRole {
    /// The role's name.
    pub open spec fn name(self) -> Seq<char> {
        match self {
            PeerRole::Worker => "worker"@,
            PeerRole::Client => "client"@,
            PeerRole::Observer => "observer"@,
            PeerRole::Mesh => "mesh"@,
        }
    }

    /// The role's name.
    pub fn as_str(self) -> (r: &'static str)
        ensures
            r@ == self.name(),
    {
        match self {
            PeerRole::Worker => "worker",
            PeerRole::Client => "client",
            PeerRole::Observer => "observer",
            PeerRole::Mesh => "mesh",
        }
    }
}

/// The role of a peer with this region and these attributes: the first of mesh, observer
/// and client that either names, and a worker where neither names one.
pub open spec fn role_of(region: Seq<char>, attributes: Set<Seq<char>>) -> PeerRole {
    if region == "MESH"@ || attributes.contains("role.mesh"@) {
        PeerRole::Mesh
    } else if region == "OBS"@ || attributes.contains("role.observer"@) {
        PeerRole::Observer
    } else if region == "CLIENT"@ || attributes.contains("role.client"@) {
        PeerRole::Client
    } else {
        PeerRole::Worker
    }
}

/// The role of a peer with this region and these attributes.
pub fn peer_role_for(region: &str, attributes: &StrSet) -> (r: PeerRole)
    ensures
        r == role_of(region@, attributes@),
{
    if str_eq(region, "MESH") || attributes.contains("role.mesh") {
        PeerRole::Mesh
    } else if str_eq(region, "OBS") || attributes.contains("role.observer") {
        PeerRole::Observer
    } else if str_eq(region, "CLIENT") || attributes.contains("role.client") {
        PeerRole::Client
    } else {
        PeerRole::Worker
    }
}

/// The attributes that only a token may grant.
pub open spec fn broker_owned_attributes() -> Set<Seq<char>> {
    set![
        "kernel_admin"@, "acl_admin"@, "inspector"@, "snapshot"@, "ops"@, "debug"@, "observer"@,
        "role.mesh"@, "role.observer"@, "role.client"@
    ]
}

/// Whether only a token may grant the attribute.
pub fn is_broker_owned_attribute(attr: &str) -> (r: bool)
    ensures
        r == broker_owned_attributes().contains(attr@),
{
    str_eq(attr, "kernel_admin") || str_eq(attr, "acl_admin") || str_eq(attr, "inspector") || str_eq(
        attr,
        "snapshot",
    ) || str_eq(attr, "ops") || str_eq(attr, "debug") || str_eq(attr, "observer") || str_eq(
        attr,
        "role.mesh",
    ) || str_eq(attr, "role.observer") || str_eq(attr, "role.client")
}

/// Takes out of what a peer declares the attributes that only a token may grant.
pub fn strip_peer_declared_broker_owned_attributes(attributes: &mut StrSet)
    ensures
        final(attributes)@ == old(attributes)@.difference(broker_owned_attributes()),
{
    let ghost before = attributes@;
    let all = attributes.members();
    let mut i: usize = 0;
    let ghost order = attributes.order();
    while i < all.len()
        invariant
            i <= all.len(),
            crate::strmap::texts(all@) == order,
            order.to_set() == before,
            forall|k: Seq<char>|
                #[trigger] attributes@.contains(k) <==> before.contains(k) && !(
                broker_owned_attributes().contains(k) && order.take(i as int).contains(k)),
        decreases all.len() - i,
    {
        let ghost seen = order.take(i as int);
        if is_broker_owned_attribute(all[i].as_str()) {
            attributes.remove(all[i].as_str());
        }
        i = i + 1;
        proof {
            let x = all@[i - 1]@;
            assert(order[i - 1] == x);
            assert(order.take(i as int) =~= seen.push(x));
            assert forall|k: Seq<char>|
                #[trigger] attributes@.contains(k) <==> before.contains(k) && !(
                broker_owned_attributes().contains(k) && order.take(i as int).contains(k)) by {
                crate::json::lemma_push_contains(seen, x, k);
            }
        }
    }
    proof {
        assert(order.take(i as int) =~= order);
        assert forall|k: Seq<char>| attributes@.contains(k) == before.difference(
            broker_owned_attributes(),
        ).contains(k) by {
            assert(order.to_set().contains(k) == order.contains(k));
        }
        assert(attributes@ =~= before.difference(broker_owned_attributes()));
    }
}

/// The regions that only a token may name.
pub open spec fn broker_owned_regions() -> Set<Seq<char>> {
    set!["MESH"@, "OBS"@, "CLIENT"@, "STANDBY"@]
}

/// Whether only a token may name the region.
pub fn broker_owned_connect_region(region: &str) -> (r: bool)
    ensures
        r == broker_owned_regions().contains(region@),
{
    str_eq(region, "MESH") || str_eq(region, "OBS") || str_eq(region, "CLIENT") || str_eq(
        region,
        "STANDBY",
    )
}

/// A peer that shows no claim is a plain worker, whatever it declares: what is left
/// of its attributes names no other role, and the regions that do are refused.
pub proof fn law_declared_peers_are_workers(region: Seq<char>, declared: Set<Seq<char>>)
    requires
        !broker_owned_regions().contains(region),
    ensures
        role_of(region, declared.difference(broker_owned_attributes())) == PeerRole::Worker,
{
    let left = declared.difference(broker_owned_attributes());
    assert(broker_owned_regions().contains("MESH"@));
    assert(broker_owned_regions().contains("OBS"@));
    assert(broker_owned_regions().contains("CLIENT"@));
    assert(broker_owned_attributes().contains("role.mesh"@));
    assert(broker_owned_attributes().contains("role.observer"@));
    assert(broker_owned_attributes().contains("role.client"@));
}

/// Whether a token opens a broker that is configured with a shared one: every
/// token does where none is configured, and only the same one where one is.
pub open spec fn token_matches(expected: Option<Seq<char>>, got: Option<Seq<char>>) -> bool {
    match expected {
        Some(e) => got == Some(e),
        None => true,
    }
}

/// Whether a token opens the broker.
pub fn auth_token_matches(expected: Option<&str>, got: Option<&str>) -> (r: bool)
    ensures
        r == token_matches(opt_text(expected), opt_text(got)),
{
    match expected {
        Some(e) => match got {
            Some(g) => str_eq(e, g),
            None => false,
        },
        None => true,
    }
}

/// The attributes in `a|b|c`.
pub open spec fn attributes_in(s: Seq<char>) -> Set<Seq<char>> {
    Set::new(
        |a: Seq<char>|
            a.len() > 0 && exists|i: int|
                0 <= i < split(s, '|').len() && trimmed(#[trigger] split(s, '|')[i]) == a,
    )
}

/// The claim in `token:region:a|b|c`; none where the token or the region is
/// missing.
pub open spec fn claim_in(entry: Seq<char>) -> Option<(Seq<char>, Claims)> {
    let e = trimmed(entry);
    let i = find_from(e, ':', 0);
    let token = trimmed(e.take(i));
    if token.len() == 0 || i >= e.len() {
        None
    } else {
        let rest = e.skip(i + 1);
        let j = find_from(rest, ':', 0);
        let region = trimmed(rest.take(j));
        if region.len() == 0 {
            None
        } else {
            Some(
                (
                    token,
                    Claims {
                        region,
                        attributes: if j < rest.len() {
                            attributes_in(rest.skip(j + 1))
                        } else {
                            Set::empty()
                        },
                    },
                ),
            )
        }
    }
}

/// The claims of the first entries; of two for one token the later counts.
pub open spec fn claims_of(entries: Seq<Seq<char>>) -> Map<Seq<char>, Claims>
    decreases entries.len(),
{
    if entries.len() == 0 {
        Map::empty()
    } else {
        let before = claims_of(entries.drop_last());
        match claim_in(entries.last()) {
            Some((t, c)) => before.insert(t, c),
            None => before,
        }
    }
}

fn parse_attributes(v: &Vec<char>, from: usize, to: usize) -> (r: StrSet)
    requires
        from <= to <= v.len(),
    ensures
        r@ == attributes_in(v@.subrange(from as int, to as int)),
{
    let ghost s = v@.subrange(from as int, to as int);
    let parts = split_range(v, from, to, '|');
    let ghost all = split(s, '|');
    let mut out = StrSet::new();
    let mut i: usize = 0;
    while i < parts.len()
        invariant
            i <= parts.len(),
            from <= to <= v.len(),
            s == v@.subrange(from as int, to as int),
            all == split(s, '|'),
            pieces(v@, parts@) == all,
            forall|j: int| 0 <= j < parts.len() ==> from <= (#[trigger] parts@[j]).0 <= parts@[j].1 <= to,
            forall|a: Seq<char>|
                #[trigger] out@.contains(a) <==> a.len() > 0 && exists|j: int|
                    0 <= j < i && trimmed(#[trigger] all[j]) == a,
        decreases parts.len() - i,
    {
        let p = parts[i];
        let (a, b) = trim_range(v, p.0, p.1);
        let ghost t = v@.subrange(a as int, b as int);
        let ghost before = out@;
        assert(all[i as int] == v@.subrange(p.0 as int, p.1 as int));
        if a < b {
            let attr = text_of(v, a, b);
            out.insert(attr.as_str());
        }
        i = i + 1;
        proof {
            assert forall|q: Seq<char>|
                #[trigger] out@.contains(q) <==> q.len() > 0 && exists|j: int|
                    0 <= j < i && trimmed(#[trigger] all[j]) == q by {
                if before.contains(q) {
                    let j = choose|j: int| 0 <= j < i - 1 && trimmed(#[trigger] all[j]) == q;
                    assert(trimmed(all[j]) == q);
                }
                if q == t {
                    assert(trimmed(all[i - 1]) == q);
                }
            }
        }
    }
    proof {
        assert(out@ =~= attributes_in(s));
    }
    out
}

/// Reads the claims in `token:region:a|b,token:region:...`.
pub fn parse_connect_auth_claims(spec: &str) -> (r: StrMap<PeerClaims>)
    ensures
        r@ == claims_of(split(spec@, ',')),
{
    let v = chars_of(spec);
    let n: usize = v.len();
    proof {
        assert(v@.subrange(0, n as int) =~= v@);
    }
    let parts = split_range(&v, 0, n, ',');
    let ghost all = split(spec@, ',');
    let mut claims: StrMap<PeerClaims> = StrMap::new();
    let mut i: usize = 0;
    proof {
        assert(claims_of(all.take(0)) =~= Map::empty());
    }
    while i < parts.len()
        invariant
            i <= parts.len(),
            n == v.len(),
            v@ == spec@,
            pieces(v@, parts@) == all,
            forall|j: int| 0 <= j < parts.len() ==> 0 <= (#[trigger] parts@[j]).0 <= parts@[j].1 <= n,
            claims@ == claims_of(all.take(i as int)),
        decreases parts.len() - i,
    {
        let p = parts[i];
        assert(all[i as int] == v@.subrange(p.0 as int, p.1 as int));
        proof {
            assert(all.take(i + 1).drop_last() =~= all.take(i as int));
            assert(all.take(i + 1).last() == all[i as int]);
        }
        let ghost e = trimmed(all[i as int]);
        let (a, b) = trim_range(&v, p.0, p.1);
        let c: usize = find_char(&v, a, b, ':');
        let (t0, t1) = trim_range(&v, a, c);
        proof {
            assert(e == v@.subrange(a as int, b as int));
            assert(e.take(c - a) =~= v@.subrange(a as int, c as int));
        }
        if t0 < t1 && c < b {
            let d: usize = find_char(&v, c + 1, b, ':');
            let (r0, r1) = trim_range(&v, c + 1, d);
            proof {
                assert(e.skip(c - a + 1) =~= v@.subrange(c + 1, b as int));
                assert(e.skip(c - a + 1).take(d - c - 1) =~= v@.subrange(c + 1, d as int));
            }
            if r0 < r1 {
                let attributes = if d < b {
                    proof {
                        assert(e.skip(c - a + 1).skip(d - c) =~= v@.subrange(d + 1, b as int));
                    }
                    parse_attributes(&v, d + 1, b)
                } else {
                    StrSet::new()
                };
                let token = text_of(&v, t0, t1);
                let region = text_of(&v, r0, r1);
                claims.insert(token.as_str(), PeerClaims { region, attributes });
            }
        }
        i = i + 1;
    }
    proof {
        assert(all.take(i as int) =~= all);
    }
    claims
}

/// What a peer that connects with a token is: the claims of its token where claims
/// are configured, nothing more than admitted where a shared token is or none, or
/// refused, and why.
pub open spec fn resolved(
    required: Option<Seq<char>>,
    configured: Map<Seq<char>, Claims>,
    provided: Option<Seq<char>>,
    region: Option<Seq<char>>,
    attributes: Set<Seq<char>>,
) -> Result<Option<Claims>, Seq<char>> {
    if configured.dom().len() > 0 {
        if provided is None || !configured.contains_key(provided->0) {
            Err("authentication required"@)
        } else {
            let c = configured[provided->0];
            if region is Some && region->0 != c.region {
                Err("auth token is not valid for requested region"@)
            } else if !attributes.subset_of(c.attributes) {
                Err("auth token is not valid for requested attributes"@)
            } else {
                Ok(Some(c))
            }
        }
    } else if token_matches(required, provided) {
        Ok(None)
    } else {
        Err("authentication required"@)
    }
}

/// A resolution by its views.
pub open spec fn resolution(r: Result<Option<PeerClaims>, String>) -> Result<
    Option<Claims>,
    Seq<char>,
> {
    match r {
        Ok(Some(c)) => Ok(Some(c@)),
        Ok(None) => Ok(None),
        Err(e) => Err(e@),
    }
}

fn is_subset(a: &StrSet, b: &StrSet) -> (r: bool)
    ensures
        r == a@.subset_of(b@),
{
    let all = a.members();
    let ghost order = a.order();
    let mut i: usize = 0;
    while i < all.len()
        invariant
            i <= all.len(),
            crate::strmap::texts(all@) == order,
            order.to_set() == a@,
            forall|j: int| 0 <= j < i ==> b@.contains(#[trigger] order[j]),
        decreases all.len() - i,
    {
        assert(order[i as int] == all@[i as int]@);
        if !b.contains(all[i].as_str()) {
            proof {
                assert(order.contains(order[i as int]));
                assert(order.to_set().contains(order[i as int]));
            }
            return false;
        }
        i = i + 1;
    }
    proof {
        assert forall|k: Seq<char>| a@.contains(k) implies b@.contains(k) by {
            assert(order.to_set().contains(k));
            let j = choose|j: int| 0 <= j < order.len() && order[j] == k;
            assert(b@.contains(order[j]));
        }
    }
    true
}

/// The claims in a setting that may be missing or empty.
pub fn parse_connect_auth_claims_env(setting: Option<&str>) -> (r: StrMap<PeerClaims>)
    ensures
        r@ == match opt_text(setting) {
            Some(t) => if t.len() > 0 {
                claims_of(split(t, ','))
            } else {
                Map::empty()
            },
            None => Map::empty(),
        },
{
    match setting {
        Some(t) => if t.is_empty() {
            StrMap::new()
        } else {
            parse_connect_auth_claims(t)
        },
        None => StrMap::new(),
    }
}

/// What a peer that connects with a token is.
pub fn resolve_connect_claims(
    required: Option<&str>,
    configured_claims: &StrMap<PeerClaims>,
    provided: Option<&str>,
    requested_region: Option<&str>,
    requested_attributes: &StrSet,
) -> (r: Result<Option<PeerClaims>, String>)
    ensures
        resolution(r) == resolved(
            opt_text(required),
            configured_claims@,
            opt_text(provided),
            opt_text(requested_region),
            requested_attributes@,
        ),
{
    if configured_claims.len() > 0 {
        let token = match provided {
            Some(t) => t,
            None => return Err("authentication required".to_owned()),
        };
        let claims = match configured_claims.get(token) {
            Some(c) => c,
            None => return Err("authentication required".to_owned()),
        };
        if let Some(region) = requested_region {
            if !str_eq(region, claims.region.as_str()) {
                return Err("auth token is not valid for requested region".to_owned());
            }
        }
        if !is_subset(requested_attributes, &claims.attributes) {
            return Err("auth token is not valid for requested attributes".to_owned());
        }
        return Ok(Some(claims.dup()));
    }
    if auth_token_matches(required, provided) {
        Ok(None)
    } else {
        Err("authentication required".to_owned())
    }
}

/// Fail closed: where claims are configured, or a shared token, a peer without a
/// token is refused.
pub proof fn law_no_token_no_entry(
    required: Option<Seq<char>>,
    configured: Map<Seq<char>, Claims>,
    region: Option<Seq<char>>,
    attributes: Set<Seq<char>>,
)
    requires
        configured.dom().len() > 0 || required is Some,
    ensures
        resolved(required, configured, None, region, attributes) is Err,
{
}

/// A token is worth its claims and no more: what a peer is admitted as under claims
/// is what its own token was configured with, whatever it declares.
pub proof fn law_claims_bind(
    required: Option<Seq<char>>,
    configured: Map<Seq<char>, Claims>,
    token: Seq<char>,
    region: Option<Seq<char>>,
    attributes: Set<Seq<char>>,
    c: Claims,
)
    requires
        resolved(required, configured, Some(token), region, attributes) == Ok::<
            Option<Claims>,
            Seq<char>,
        >(Some(c)),
    ensures
        configured.contains_key(token),
        c == configured[token],
        region is Some ==> region->0 == c.region,
        attributes.subset_of(c.attributes),
{
}

}
