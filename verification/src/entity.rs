//! Entities, and who may write which of their components.

use vstd::prelude::*;
use crate::doc::{docs, Doc, Json};
use crate::float::{Point, Vec2};
use crate::json::{num_or, opt_doc};
use crate::strmap::{texts, Dup, StrMap, StrSet};
use crate::text::{begins, opt_string, opt_text, starts_with, str_eq};

verus! {

broadcast use crate::doc::group_json;

/// How the authority over a component is held.
#[derive(Clone, Copy, Debug, PartialEq, Eq, Structural)]
pub enum AuthorityMode {
    ServerPhysicsIsland,
    ServerArbitrated,
    ClientForwardSparse,
    ThresholdOverlap,
    PersistentKernelLock,
}

impl AuthorityMode {
    /// The mode's name on the wire.
    pub open spec fn wire(self) -> Seq<char> {
        match self {
            AuthorityMode::ServerPhysicsIsland => "server_physics_island"@,
            AuthorityMode::ServerArbitrated => "server_arbitrated"@,
            AuthorityMode::ClientForwardSparse => "client_forward_sparse"@,
            AuthorityMode::ThresholdOverlap => "threshold_overlap"@,
            AuthorityMode::PersistentKernelLock => "persistent_kernel_lock"@,
        }
    }

    /// The mode of a name.
    pub open spec fn of_wire(s: Seq<char>) -> Option<AuthorityMode> {
        if s == "server_physics_island"@ {
            Some(AuthorityMode::ServerPhysicsIsland)
        } else if s == "server_arbitrated"@ {
            Some(AuthorityMode::ServerArbitrated)
        } else if s == "client_forward_sparse"@ {
            Some(AuthorityMode::ClientForwardSparse)
        } else if s == "threshold_overlap"@ {
            Some(AuthorityMode::ThresholdOverlap)
        } else if s == "persistent_kernel_lock"@ {
            Some(AuthorityMode::PersistentKernelLock)
        } else {
            None
        }
    }

    /// The mode's name on the wire.
    pub fn as_wire_str(self) -> (r: &'static str)
        ensures
            r@ == self.wire(),
    {
        match self {
            AuthorityMode::ServerPhysicsIsland => "server_physics_island",
            AuthorityMode::ServerArbitrated => "server_arbitrated",
            AuthorityMode::ClientForwardSparse => "client_forward_sparse",
            AuthorityMode::ThresholdOverlap => "threshold_overlap",
            AuthorityMode::PersistentKernelLock => "persistent_kernel_lock",
        }
    }

    /// The mode of a name.
    pub fn from_wire_str(s: &str) -> (r: Option<AuthorityMode>)
        ensures
            r == AuthorityMode::of_wire(s@),
    {
        if str_eq(s, "server_physics_island") {
            Some(AuthorityMode::ServerPhysicsIsland)
        } else if str_eq(s, "server_arbitrated") {
            Some(AuthorityMode::ServerArbitrated)
        } else if str_eq(s, "client_forward_sparse") {
            Some(AuthorityMode::ClientForwardSparse)
        } else if str_eq(s, "threshold_overlap") {
            Some(AuthorityMode::ThresholdOverlap)
        } else if str_eq(s, "persistent_kernel_lock") {
            Some(AuthorityMode::PersistentKernelLock)
        } else {
            None
        }
    }
}

/// A mode's name denotes the mode.
pub proof fn law_mode_names(m: AuthorityMode)
    ensures
        AuthorityMode::of_wire(m.wire()) == Some(m),
{
    reveal_strlit("server_physics_island");
    reveal_strlit("server_arbitrated");
    reveal_strlit("client_forward_sparse");
    reveal_strlit("threshold_overlap");
    reveal_strlit("persistent_kernel_lock");
    assert("server_physics_island"@.len() == 21);
    assert("client_forward_sparse"@.len() == 21);
    assert("server_physics_island"@[0] != "client_forward_sparse"@[0]);
    assert("server_arbitrated"@.len() == 17);
    assert("threshold_overlap"@.len() == 17);
    assert("server_arbitrated"@[0] != "threshold_overlap"@[0]);
    assert("persistent_kernel_lock"@.len() == 22);
}

/// Who holds a component, under which epoch, and how.
pub struct ComponentAuthority {
    pub owner: Option<String>,
    pub epoch: u64,
    pub mode: AuthorityMode,
}

/// A `ComponentAuthority` by its views.
#[verifier::ext_equal]
pub ghost struct Auth {
    pub owner: Option<Seq<char>>,
    pub epoch: u64,
    pub mode: AuthorityMode,
}

impl View for ComponentAuthority {
    type V = Auth;

    open spec fn view(&self) -> Auth {
        Auth { owner: opt_string(self.owner), epoch: self.epoch, mode: self.mode }
    }
}

/// Copies an optional string.
pub fn dup_opt(o: &Option<String>) -> (r: Option<String>)
    ensures
        opt_string(r) == opt_string(*o),
{
    match o {
        Some(s) => Some(s.clone()),
        None => None,
    }
}

/// An optional string as a reference.
pub fn as_opt_str(o: &Option<String>) -> (r: Option<&str>)
    ensures
        opt_text(r) == opt_string(*o),
{
    match o {
        Some(s) => Some(s.as_str()),
        None => None,
    }
}

/// Copies an optional reference.
pub fn to_opt_string(o: Option<&str>) -> (r: Option<String>)
    ensures
        opt_string(r) == opt_text(o),
{
    match o {
        Some(s) => Some(s.to_owned()),
        None => None,
    }
}

/// Whether an optional string is `s`.
pub fn opt_is(o: &Option<String>, s: &str) -> (r: bool)
    ensures
        r == (opt_string(*o) == Some(s@)),
{
    match o {
        Some(t) => str_eq(t.as_str(), s),
        None => false,
    }
}

impl Dup for ComponentAuthority {
    fn dup(&self) -> (r: ComponentAuthority) {
        ComponentAuthority { owner: dup_opt(&self.owner), epoch: self.epoch, mode: self.mode }
    }
}

/// A thing in the world.
pub struct Entity {
    pub pos: Point,
    pub vel: Point,
    pub components: StrMap<Json>,
    pub region: String,
    pub version: u64,
    pub authority: StrMap<ComponentAuthority>,
}

/// An `Entity` by its views.
#[verifier::ext_equal]
pub ghost struct Ent {
    pub pos: Vec2,
    pub vel: Vec2,
    pub components: Map<Seq<char>, Doc>,
    pub region: Seq<char>,
    pub version: u64,
    pub authority: Map<Seq<char>, Auth>,
}

impl View for Entity {
    type V = Ent;

    open spec fn view(&self) -> Ent {
        Ent {
            pos: self.pos@,
            vel: self.vel@,
            components: self.components@,
            region: self.region@,
            version: self.version,
            authority: self.authority@,
        }
    }
}

impl Dup for Entity {
    fn dup(&self) -> (r: Entity) {
        Entity {
            pos: self.pos.dup(),
            vel: self.vel.dup(),
            components: self.components.dup(),
            region: self.region.clone(),
            version: self.version,
            authority: self.authority.dup(),
        }
    }
}

/// Whether the platform keeps a component to itself.
pub open spec fn platform_reserved(comp: Seq<char>) -> bool {
    kernel_locked(comp) || comp == "threshold.tx"@ || comp == "authority.mode"@
}

/// Whether a component is locked to the kernel.
pub open spec fn kernel_locked(comp: Seq<char>) -> bool {
    ||| comp == "kernel"@
    ||| begins(comp, "kernel."@)
    ||| comp == "ownership"@
    ||| begins(comp, "ownership."@)
    ||| comp == "zone.law"@
}

/// Whether a component belongs to the physics of an entity.
pub open spec fn spatial(comp: Seq<char>) -> bool {
    ||| comp == "pos"@
    ||| comp == "vel"@
    ||| comp == "phys"@
    ||| comp == "physics"@
    ||| comp == "rot"@
    ||| comp == "lin"@
    ||| comp == "ang"@
    ||| comp == "at_rest"@
    ||| comp == "gen"@
    ||| comp == "t_server"@
    ||| comp == "sim_time"@
    ||| begins(comp, "phys."@)
    ||| begins(comp, "physics."@)
}

/// Whether the platform keeps a component to itself.
pub fn is_platform_reserved_component(comp: &str) -> (r: bool)
    ensures
        r == platform_reserved(comp@),
{
    is_kernel_locked_component(comp) || str_eq(comp, "threshold.tx") || str_eq(comp, "authority.mode")
}

/// Whether a component is locked to the kernel.
pub fn is_kernel_locked_component(comp: &str) -> (r: bool)
    ensures
        r == kernel_locked(comp@),
{
    str_eq(comp, "kernel") || starts_with(comp, "kernel.") || str_eq(comp, "ownership")
        || starts_with(comp, "ownership.") || str_eq(comp, "zone.law")
}

/// Whether a component belongs to the physics of an entity.
pub fn is_spatial_component(comp: &str) -> (r: bool)
    ensures
        r == spatial(comp@),
{
    str_eq(comp, "pos") || str_eq(comp, "vel") || str_eq(comp, "phys") || str_eq(comp, "physics")
        || str_eq(comp, "rot") || str_eq(comp, "lin") || str_eq(comp, "ang") || str_eq(
        comp,
        "at_rest",
    ) || str_eq(comp, "gen") || str_eq(comp, "t_server") || str_eq(comp, "sim_time") || starts_with(
        comp,
        "phys.",
    ) || starts_with(comp, "physics.")
}

/// The text at `acl.<table>.<comp>` of the components.
pub open spec fn acl_attr(comps: Map<Seq<char>, Doc>, table: Seq<char>, comp: Seq<char>) -> Option<
    Seq<char>,
> {
    if comps.contains_key("acl"@) {
        match comps["acl"@].get(table) {
            Some(w) => w.get_str(comp),
            None => None,
        }
    } else {
        None
    }
}

fn acl_text<'a>(comps: &'a StrMap<Json>, table: &str, comp: &str) -> (r: Option<&'a str>)
    ensures
        opt_text(r) == acl_attr(comps@, table@, comp@),
{
    match comps.get("acl") {
        Some(a) => match a.get(table) {
            Some(w) => w.get_str(comp),
            None => None,
        },
        None => None,
    }
}

/// The attribute that writing `comp` asks for, where the entity's `acl` asks for
/// one.
pub fn acl_write_attr(e: &Entity, comp: &str) -> (r: Option<String>)
    ensures
        opt_string(r) == acl_attr(e@.components, "write"@, comp@),
{
    to_opt_string(acl_text(&e.components, "write", comp))
}

/// The attribute that lets a client write `comp`, where the `acl` names one.
pub fn acl_client_write_attr_from_components(comps: &StrMap<Json>, comp: &str) -> (r: Option<String>)
    ensures
        opt_string(r) == acl_attr(comps@, "client_write"@, comp@),
{
    to_opt_string(acl_text(comps, "client_write", comp))
}

/// The attribute that lets a client write `comp` of the entity.
pub fn acl_client_write_attr(e: &Entity, comp: &str) -> (r: Option<String>)
    ensures
        opt_string(r) == acl_attr(e@.components, "client_write"@, comp@),
{
    acl_client_write_attr_from_components(&e.components, comp)
}

/// Whether a peer with these attributes may read the components: always, unless
/// the `acl` lists readers, and then where it lists one of the attributes.
pub open spec fn may_read(attrs: Set<Seq<char>>, comps: Map<Seq<char>, Doc>) -> bool {
    let read = if comps.contains_key("acl"@) { comps["acl"@].get("read"@) } else { None };
    match read {
        Some(Doc::Arr(s)) => s.len() == 0 || lists_one(s, attrs),
        _ => true,
    }
}

/// Whether a list of texts holds one of the attributes.
pub open spec fn lists_one(s: Seq<Doc>, attrs: Set<Seq<char>>) -> bool {
    exists|i: int| 0 <= i < s.len() && names_one(#[trigger] s[i], attrs)
}

pub open spec fn names_one(d: Doc, attrs: Set<Seq<char>>) -> bool {
    match d {
        Doc::Str(a) => attrs.contains(a),
        _ => false,
    }
}

/// Whether a peer with these attributes may read the components.
pub fn acl_read_ok_components(attrs: &StrSet, components: &StrMap<Json>) -> (r: bool)
    ensures
        r == may_read(attrs@, components@),
{
    let read = match components.get("acl") {
        Some(a) => match a.get("read") {
            Some(r) => r.as_array(),
            None => None,
        },
        None => None,
    };
    match read {
        None => true,
        Some(v) => {
            if v.len() == 0 {
                return true;
            }
            let ghost s = docs(v@);
            let mut i: usize = 0;
            while i < v.len()
                invariant
                    i <= v.len(),
                    s == docs(v@),
                    may_read(attrs@, components@) == lists_one(s, attrs@),
                    forall|j: int| 0 <= j < i ==> !names_one(#[trigger] s[j], attrs@),
                decreases v.len() - i,
            {
                assert(s[i as int] == v@[i as int]@);
                if let Some(a) = v[i].as_str() {
                    if attrs.contains(a) {
                        return true;
                    }
                }
                i = i + 1;
            }
            false
        },
    }
}

/// Whether a peer with these attributes may read the entity.
pub fn acl_read_ok(attrs: &StrSet, e: &Entity) -> (r: bool)
    ensures
        r == may_read(attrs@, e@.components),
{
    acl_read_ok_components(attrs, &e.components)
}

/// What the components' `authority.mode` says of `comp`.
pub open spec fn spec_for(comps: Map<Seq<char>, Doc>, comp: Seq<char>) -> Option<Doc> {
    if comps.contains_key("authority.mode"@) {
        comps["authority.mode"@].get(comp)
    } else {
        None
    }
}

/// What the components' `authority.mode` says of `comp`.
pub fn authority_spec_for<'a>(comps: &'a StrMap<Json>, comp: &str) -> (r: Option<&'a Json>)
    ensures
        opt_doc(r) == spec_for(comps@, comp@),
{
    match comps.get("authority.mode") {
        Some(m) => m.get(comp),
        None => None,
    }
}

/// The mode that a value names: itself, or its member `mode`.
pub open spec fn value_mode(d: Doc) -> Option<AuthorityMode> {
    let name = match d {
        Doc::Str(s) => Some(s),
        _ => d.get_str("mode"@),
    };
    match name {
        Some(s) => AuthorityMode::of_wire(s),
        None => None,
    }
}

/// The mode that a value names.
pub fn authority_mode_from_value(v: &Json) -> (r: Option<AuthorityMode>)
    ensures
        r == value_mode(v@),
{
    match v.as_str() {
        Some(s) => AuthorityMode::from_wire_str(s),
        None => match v.get_str("mode") {
            Some(s) => AuthorityMode::from_wire_str(s),
            None => None,
        },
    }
}

/// The owner that a value names, unless it is empty.
pub open spec fn value_owner(d: Doc) -> Option<Seq<char>> {
    match d.get_str("owner"@) {
        Some(o) => if o.len() > 0 {
            Some(o)
        } else {
            None
        },
        None => None,
    }
}

/// The owner that a value names, unless it is empty.
pub fn authority_owner_from_value(v: &Json) -> (r: Option<String>)
    ensures
        opt_string(r) == value_owner(v@),
{
    match v.get_str("owner") {
        Some(o) => if o.is_empty() {
            None
        } else {
            Some(o.to_owned())
        },
        None => None,
    }
}

/// The epoch that a value names: its `authority_epoch`, or else its `epoch`.
pub open spec fn value_epoch(d: Doc) -> Option<u64> {
    match d.get("authority_epoch"@) {
        Some(e) => e.as_u64(),
        None => d.get_u64("epoch"@),
    }
}

/// The epoch that a value names.
pub fn authority_epoch_from_value(v: &Json) -> (r: Option<u64>)
    ensures
        r == value_epoch(v@),
{
    match v.get("authority_epoch") {
        Some(e) => e.as_u64(),
        None => v.get_u64("epoch"),
    }
}

/// The mode of a component that nothing was recorded of.
pub open spec fn default_mode(comps: Map<Seq<char>, Doc>, comp: Seq<char>) -> AuthorityMode {
    let stated = match spec_for(comps, comp) {
        Some(d) => value_mode(d),
        None => None,
    };
    match stated {
        Some(m) => m,
        None => if kernel_locked(comp) {
            AuthorityMode::PersistentKernelLock
        } else if comp == "threshold.tx"@ {
            AuthorityMode::ThresholdOverlap
        } else if acl_attr(comps, "client_write"@, comp) is Some {
            AuthorityMode::ClientForwardSparse
        } else if spatial(comp) {
            AuthorityMode::ServerPhysicsIsland
        } else {
            AuthorityMode::ServerArbitrated
        },
    }
}

/// The mode of a component that nothing was recorded of.
pub fn default_authority_mode(comps: &StrMap<Json>, comp: &str) -> (r: AuthorityMode)
    ensures
        r == default_mode(comps@, comp@),
{
    if let Some(v) = authority_spec_for(comps, comp) {
        if let Some(mode) = authority_mode_from_value(v) {
            return mode;
        }
    }
    if is_kernel_locked_component(comp) {
        AuthorityMode::PersistentKernelLock
    } else if str_eq(comp, "threshold.tx") {
        AuthorityMode::ThresholdOverlap
    } else if acl_client_write_attr_from_components(comps, comp).is_some() {
        AuthorityMode::ClientForwardSparse
    } else if is_spatial_component(comp) {
        AuthorityMode::ServerPhysicsIsland
    } else {
        AuthorityMode::ServerArbitrated
    }
}

/// The authority that a component starts with.
pub open spec fn initial_auth(comps: Map<Seq<char>, Doc>, comp: Seq<char>, epoch: u64) -> Auth {
    Auth {
        owner: match spec_for(comps, comp) {
            Some(d) => value_owner(d),
            None => None,
        },
        epoch: match spec_for(comps, comp) {
            Some(d) => num_or(value_epoch(d), epoch),
            None => epoch,
        },
        mode: default_mode(comps, comp),
    }
}

/// The components that have an authority from the start: all there are, the
/// position and the velocity, and those that `authority.mode` speaks of.
pub open spec fn initial_names(comps: Map<Seq<char>, Doc>) -> Set<Seq<char>> {
    Set::new(
        |c: Seq<char>|
            comps.contains_key(c) || c == "pos"@ || c == "vel"@ || spec_for(comps, c) is Some,
    )
}

/// The authority that an entity with these components starts with.
pub open spec fn initial_authority(comps: Map<Seq<char>, Doc>, epoch: u64) -> Map<Seq<char>, Auth> {
    Map::new(
        |c: Seq<char>| initial_names(comps).contains(c),
        |c: Seq<char>| initial_auth(comps, c, epoch),
    )
}

fn initial_component_authority(comps: &StrMap<Json>, comp: &str, epoch: u64) -> (r:
    ComponentAuthority)
    ensures
        r@ == initial_auth(comps@, comp@, epoch),
{
    let spec = authority_spec_for(comps, comp);
    ComponentAuthority {
        owner: match spec {
            Some(v) => authority_owner_from_value(v),
            None => None,
        },
        epoch: match spec {
            Some(v) => match authority_epoch_from_value(v) {
                Some(n) => n,
                None => epoch,
            },
            None => epoch,
        },
        mode: default_authority_mode(comps, comp),
    }
}

/// Adds the keys of a map to a set.
pub fn add_keys<V: View>(set: &mut StrSet, m: &StrMap<V>)
    ensures
        final(set)@ == old(set)@.union(m@.dom()),
{
    let n: usize = m.len();
    let ghost before = set@;
    let ghost order = m.order();
    let mut i: usize = 0;
    while i < n
        invariant
            i <= n == order.len(),
            order == m.order(),
            forall|k: Seq<char>|
                #[trigger] set@.contains(k) <==> before.contains(k) || order.take(
                    i as int,
                ).contains(k),
        decreases n - i,
    {
        let ghost seen = order.take(i as int);
        set.insert(m.key_at(i));
        i = i + 1;
        proof {
            assert(order.take(i as int) =~= seen.push(order[i - 1]));
            assert forall|k: Seq<char>|
                #[trigger] set@.contains(k) <==> before.contains(k) || order.take(
                    i as int,
                ).contains(k) by {
                crate::json::lemma_push_contains(seen, order[i - 1], k);
            }
        }
    }
    proof {
        assert(order.take(n as int) =~= order);
        assert forall|k: Seq<char>| set@.contains(k) == before.union(m@.dom()).contains(k) by {
            assert(order.to_set().contains(k) == order.contains(k));
        }
        assert(set@ =~= before.union(m@.dom()));
    }
}

/// The authority that an entity with these components starts with.
pub fn initial_authority_map(comps: &StrMap<Json>, epoch: u64) -> (r: StrMap<ComponentAuthority>)
    ensures
        r@ == initial_authority(comps@, epoch),
{
    let mut names = StrSet::new();
    add_keys(&mut names, comps);
    names.insert("pos");
    names.insert("vel");
    if let Some(m) = comps.get("authority.mode") {
        if let Some(spec) = m.as_object() {
            add_keys(&mut names, spec);
        }
    }
    proof {
        assert(names@ =~= initial_names(comps@));
    }
    let all = names.members();
    let ghost order = names.order();
    let mut out: StrMap<ComponentAuthority> = StrMap::new();
    let mut i: usize = 0;
    while i < all.len()
        invariant
            i <= all.len(),
            texts(all@) == order,
            forall|k: Seq<char>|
                #[trigger] out@.contains_key(k) <==> order.take(i as int).contains(k),
            forall|k: Seq<char>|
                #[trigger] out@.contains_key(k) ==> out@[k] == initial_auth(comps@, k, epoch),
        decreases all.len() - i,
    {
        let ghost seen = order.take(i as int);
        let ca = initial_component_authority(comps, all[i].as_str(), epoch);
        out.insert(all[i].as_str(), ca);
        i = i + 1;
        proof {
            assert(order[i - 1] == all@[i - 1]@);
            assert(order.take(i as int) =~= seen.push(order[i - 1]));
            assert forall|k: Seq<char>|
                #[trigger] out@.contains_key(k) <==> order.take(i as int).contains(k) by {
                crate::json::lemma_push_contains(seen, order[i - 1], k);
            }
        }
    }
    proof {
        assert(order.take(i as int) =~= order);
        assert forall|k: Seq<char>| out@.contains_key(k) == initial_names(comps@).contains(k) by {
            assert(order.to_set().contains(k) == order.contains(k));
        }
        assert(out@ =~= initial_authority(comps@, epoch));
    }
    out
}

/// Whether a component that has no authority of its own falls back to that of the
/// position.
pub open spec fn follows_position(comp: Seq<char>) -> bool {
    comp == "delete"@ || comp == "threshold.tx"@ || comp == "fold"@
}

impl Ent {
    /// The authority that counts for a component.
    pub open spec fn auth_for(self, comp: Seq<char>) -> Option<Auth> {
        if self.authority.contains_key(comp) {
            Some(self.authority[comp])
        } else if follows_position(comp) && self.authority.contains_key("pos"@) {
            Some(self.authority["pos"@])
        } else {
            None
        }
    }

    /// The epoch of a component; 1 where nothing was recorded.
    pub open spec fn epoch(self, comp: Seq<char>) -> u64 {
        match self.auth_for(comp) {
            Some(a) => a.epoch,
            None => 1,
        }
    }

    /// The mode of a component.
    pub open spec fn mode(self, comp: Seq<char>) -> AuthorityMode {
        match self.auth_for(comp) {
            Some(a) => a.mode,
            None => default_mode(self.components, comp),
        }
    }

    /// The owner of a component.
    pub open spec fn owner(self, comp: Seq<char>) -> Option<Seq<char>> {
        match self.auth_for(comp) {
            Some(a) => a.owner,
            None => None,
        }
    }

    /// The entity with an authority recorded for `comp`: one that was not there
    /// starts at the position's epoch.
    pub open spec fn ensured(self, comp: Seq<char>) -> Ent {
        if self.authority.contains_key(comp) {
            self
        } else {
            Ent {
                authority: self.authority.insert(
                    comp,
                    Auth {
                        owner: match spec_for(self.components, comp) {
                            Some(d) => value_owner(d),
                            None => None,
                        },
                        epoch: if self.authority.contains_key("pos"@) {
                            self.authority["pos"@].epoch
                        } else {
                            1
                        },
                        mode: default_mode(self.components, comp),
                    },
                ),
                ..self
            }
        }
    }

    /// The entity with the authority of `comp` replaced.
    pub open spec fn with_auth(self, comp: Seq<char>, a: Auth) -> Ent {
        Ent { authority: self.authority.insert(comp, a), ..self }
    }

    /// The entity with the epoch of `comp` set.
    pub open spec fn with_epoch(self, comp: Seq<char>, epoch: u64) -> Ent {
        let e = self.ensured(comp);
        e.with_auth(comp, Auth { epoch, ..e.authority[comp] })
    }
}

/// Records an authority for `comp` where there is none.
pub fn ensure_component_authority(e: &mut Entity, comp: &str)
    ensures
        final(e)@ == old(e)@.ensured(comp@),
{
    if e.authority.contains_key(comp) {
        return;
    }
    let epoch: u64 = match e.authority.get("pos") {
        Some(ca) => ca.epoch,
        None => 1,
    };
    let owner = match authority_spec_for(&e.components, comp) {
        Some(v) => authority_owner_from_value(v),
        None => None,
    };
    let mode = default_authority_mode(&e.components, comp);
    e.authority.insert(comp, ComponentAuthority { owner, epoch, mode });
}

fn authority_for<'a>(e: &'a Entity, comp: &str) -> (r: Option<&'a ComponentAuthority>)
    ensures
        match r {
            Some(a) => e@.auth_for(comp@) == Some(a@),
            None => e@.auth_for(comp@) is None,
        },
{
    match e.authority.get(comp) {
        Some(a) => Some(a),
        None => if str_eq(comp, "delete") || str_eq(comp, "threshold.tx") || str_eq(comp, "fold") {
            e.authority.get("pos")
        } else {
            None
        },
    }
}

/// The epoch of a component.
pub fn component_authority_epoch(e: &Entity, comp: &str) -> (r: u64)
    ensures
        r == e@.epoch(comp@),
{
    match authority_for(e, comp) {
        Some(a) => a.epoch,
        None => 1,
    }
}

/// The mode of a component.
pub fn component_authority_mode(e: &Entity, comp: &str) -> (r: AuthorityMode)
    ensures
        r == e@.mode(comp@),
{
    match authority_for(e, comp) {
        Some(a) => a.mode,
        None => default_authority_mode(&e.components, comp),
    }
}

/// The owner of a component.
pub fn component_authority_owner(e: &Entity, comp: &str) -> (r: Option<String>)
    ensures
        opt_string(r) == e@.owner(comp@),
{
    match authority_for(e, comp) {
        Some(a) => dup_opt(&a.owner),
        None => None,
    }
}

/// Sets the epoch of a component.
pub fn set_component_authority_epoch(e: &mut Entity, comp: &str, epoch: u64)
    ensures
        final(e)@ == old(e)@.with_epoch(comp@, epoch),
{
    ensure_component_authority(e, comp);
    if let Some(ca) = e.authority.remove(comp) {
        e.authority.insert(comp, ComponentAuthority { owner: ca.owner, epoch, mode: ca.mode });
        proof {
            assert(e@.authority =~= old(e)@.with_epoch(comp@, epoch).authority);
        }
    }
}

/// A number one higher, or the highest there is.
pub open spec fn succ(n: u64) -> u64 {
    if n == u64::MAX {
        n
    } else {
        (n + 1) as u64
    }
}

/// Raises the epoch of a component by one.
pub fn bump_component_authority_epoch(e: &mut Entity, comp: &str) -> (r: u64)
    ensures
        r == succ(old(e)@.ensured(comp@).authority[comp@].epoch),
        final(e)@ == old(e)@.with_epoch(comp@, r),
{
    ensure_component_authority(e, comp);
    let epoch: u64 = match e.authority.get(comp) {
        Some(ca) => ca.epoch.saturating_add(1),
        None => 1,
    };
    set_component_authority_epoch(e, comp, epoch);
    epoch
}

}
