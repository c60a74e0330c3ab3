//! Authority snapshots, and the transfer of the physics of an entity as a whole.

use vstd::prelude::*;
use crate::doc::{Doc, Json, Num};
use crate::entity::{
    add_keys, authority_epoch_from_value, authority_mode_from_value, authority_owner_from_value,
    bump_component_authority_epoch, component_authority_epoch, default_authority_mode, default_mode,
    ensure_component_authority, follows_position, law_mode_names, set_component_authority_epoch,
    succ, to_opt_string, value_epoch, value_mode, value_owner, Auth, AuthorityMode,
    ComponentAuthority, Ent, Entity,
};
use crate::json::{lemma_push_contains, num_or, opt_text_doc};
use crate::order::{sorted, sorted_texts, strictly_sorted};
use crate::strmap::{texts, StrMap, StrSet};
use crate::text::{opt_text, str_eq};

verus! {

broadcast use crate::doc::group_json;

/// An authority as a document.
pub open spec fn auth_doc(a: Auth) -> Doc {
    Doc::Obj(
        map![
            "owner"@ => opt_text_doc(a.owner),
            "authority_epoch"@ => Doc::Num(Num::Pos(a.epoch)),
            "mode"@ => Doc::Str(a.mode.wire())],
    )
}

/// The authorities of an entity as a document.
pub open spec fn authority_doc(m: Map<Seq<char>, Auth>) -> Doc {
    Doc::Obj(m.map_values(|a: Auth| auth_doc(a)))
}

/// The authorities of an entity as a value.
pub fn authority_to_json(authority: &StrMap<ComponentAuthority>) -> (r: Json)
    ensures
        r@ == authority_doc(authority@),
{
    let mut out: StrMap<Json> = StrMap::new();
    let n: usize = authority.len();
    let ghost order = authority.order();
    let mut i: usize = 0;
    while i < n
        invariant
            i <= n == order.len(),
            order == authority.order(),
            forall|k: Seq<char>|
                #[trigger] out@.contains_key(k) <==> order.take(i as int).contains(k),
            forall|k: Seq<char>|
                #[trigger] out@.contains_key(k) ==> authority@.contains_key(k) && out@[k]
                    == auth_doc(authority@[k]),
        decreases n - i,
    {
        let ghost seen = order.take(i as int);
        let ca = authority.value_at(i);
        let j = StrMap::new().with("owner", Json::opt_str(&ca.owner)).with(
            "authority_epoch",
            Json::u64(ca.epoch),
        ).with("mode", Json::str(ca.mode.as_wire_str())).done();
        out.insert(authority.key_at(i), j);
        i = i + 1;
        proof {
            assert(order.take(i as int) =~= seen.push(order[i - 1]));
            assert forall|k: Seq<char>|
                #[trigger] out@.contains_key(k) <==> order.take(i as int).contains(k) by {
                lemma_push_contains(seen, order[i - 1], k);
            }
        }
    }
    proof {
        assert(order.take(n as int) =~= order);
        assert forall|k: Seq<char>| out@.contains_key(k) == authority@.contains_key(k) by {
            assert(order.to_set().contains(k) == order.contains(k));
        }
        assert(out@ =~= authority_doc(authority@)->Obj_0);
    }
    out.done()
}

impl Ent {
    /// The epoch that the position has before a snapshot is applied.
    pub open spec fn pos_epoch(self) -> u64 {
        if self.authority.contains_key("pos"@) {
            self.authority["pos"@].epoch
        } else {
            1
        }
    }

    /// The epoch that the position has after a snapshot is applied.
    pub open spec fn pos_epoch_after(self, m: Map<Seq<char>, Doc>) -> u64 {
        if m.contains_key("pos"@) {
            num_or(value_epoch(m["pos"@]), self.pos_epoch())
        } else {
            self.pos_epoch()
        }
    }

    /// The epoch that a snapshot gives a component. One that the snapshot does not
    /// state stays as it is; a component that falls back to the position takes
    /// the position's, and after it in the order of names the new one.
    pub open spec fn snapshot_epoch(self, m: Map<Seq<char>, Doc>, comp: Seq<char>) -> u64 {
        match value_epoch(m[comp]) {
            Some(n) => n,
            None => if self.authority.contains_key(comp) {
                self.authority[comp].epoch
            } else if comp == "threshold.tx"@ {
                self.pos_epoch_after(m)
            } else if follows_position(comp) {
                self.pos_epoch()
            } else {
                1
            },
        }
    }

    /// The authority that a snapshot gives a component.
    pub open spec fn snapshot_auth(self, m: Map<Seq<char>, Doc>, comp: Seq<char>) -> Auth {
        Auth {
            owner: value_owner(m[comp]),
            epoch: self.snapshot_epoch(m, comp),
            mode: match value_mode(m[comp]) {
                Some(mode) => mode,
                None => default_mode(self.components, comp),
            },
        }
    }

    /// The entity after a snapshot of authorities.
    pub open spec fn snapshot_applied(self, snapshot: Doc) -> Ent {
        match snapshot {
            Doc::Obj(m) => Ent {
                authority: self.authority.union_prefer_right(
                    Map::new(
                        |c: Seq<char>| m.contains_key(c),
                        |c: Seq<char>| self.snapshot_auth(m, c),
                    ),
                ),
                ..self
            },
            _ => self,
        }
    }
}

/// Applies a snapshot of authorities to an entity.
pub fn apply_authority_snapshot(e: &mut Entity, snapshot: &Json)
    ensures
        final(e)@ == old(e)@.snapshot_applied(snapshot@),
{
    let ghost before = e@;
    let m = match snapshot.as_object() {
        Some(m) => m,
        None => return,
    };
    let pos_before: u64 = match e.authority.get("pos") {
        Some(ca) => ca.epoch,
        None => 1,
    };
    let pos_after: u64 = match m.get("pos") {
        Some(v) => match authority_epoch_from_value(v) {
            Some(n) => n,
            None => pos_before,
        },
        None => pos_before,
    };
    let n: usize = m.len();
    let ghost order = m.order();
    let mut i: usize = 0;
    while i < n
        invariant
            i <= n == order.len(),
            order == m.order(),
            order.no_duplicates(),
            snapshot@ == Doc::Obj(m@),
            pos_before == before.pos_epoch(),
            pos_after == before.pos_epoch_after(m@),
            e@ == (Ent { authority: e@.authority, ..before }),
            forall|k: Seq<char>|
                #[trigger] e@.authority.contains_key(k) <==> before.authority.contains_key(k)
                    || order.take(i as int).contains(k),
            forall|k: Seq<char>|
                #[trigger] e@.authority.contains_key(k) ==> e@.authority[k] == if order.take(
                    i as int,
                ).contains(k) {
                    before.snapshot_auth(m@, k)
                } else {
                    before.authority[k]
                },
        decreases n - i,
    {
        let ghost seen = order.take(i as int);
        let comp = m.key_at(i);
        let spec = m.value_at(i);
        proof {
            if seen.contains(comp@) {
                let j = choose|j: int| 0 <= j < seen.len() && seen[j] == comp@;
                assert(order[j] == order[i as int]);
            }
        }
        let mode = match authority_mode_from_value(spec) {
            Some(mode) => mode,
            None => default_authority_mode(&e.components, comp),
        };
        let owner = authority_owner_from_value(spec);
        let epoch: u64 = match authority_epoch_from_value(spec) {
            Some(n) => n,
            None => match e.authority.get(comp) {
                Some(ca) => ca.epoch,
                None => if str_eq(comp, "threshold.tx") {
                    pos_after
                } else if str_eq(comp, "delete") || str_eq(comp, "fold") {
                    pos_before
                } else {
                    1
                },
            },
        };
        e.authority.insert(comp, ComponentAuthority { owner, epoch, mode });
        i = i + 1;
        proof {
            assert(order.take(i as int) =~= seen.push(comp@));
            assert forall|k: Seq<char>| #[trigger] order.take(i as int).contains(k) <==> (
            seen.contains(k) || k == comp@) by {
                lemma_push_contains(seen, comp@, k);
            }
        }
    }
    proof {
        assert(order.take(n as int) =~= order);
        assert forall|k: Seq<char>| m@.contains_key(k) == order.contains(k) by {
            assert(order.to_set().contains(k) == order.contains(k));
        }
        assert(e@.authority =~= before.snapshot_applied(snapshot@).authority);
    }
}

/// A snapshot says what it was taken of: applied to an entity, it gives each
/// component the authority that it had, where no owner is the empty text.
pub proof fn law_snapshot_round_trip(e: Ent, m: Map<Seq<char>, Auth>)
    requires
        forall|k: Seq<char>| #[trigger] m.contains_key(k) ==> m[k].owner != Some(Seq::<char>::empty()),
    ensures
        e.snapshot_applied(authority_doc(m)).authority == e.authority.union_prefer_right(m),
{
    let d = authority_doc(m)->Obj_0;
    assert forall|k: Seq<char>| #[trigger] m.contains_key(k) implies e.snapshot_auth(d, k) == m[k] by {
        lemma_auth_doc(m[k]);
    }
    assert(e.snapshot_applied(authority_doc(m)).authority =~= e.authority.union_prefer_right(m));
}

pub proof fn lemma_auth_doc(a: Auth)
    requires
        a.owner != Some(Seq::<char>::empty()),
    ensures
        value_owner(auth_doc(a)) == a.owner,
        value_epoch(auth_doc(a)) == Some(a.epoch),
        value_mode(auth_doc(a)) == Some(a.mode),
{
    reveal_strlit("owner");
    reveal_strlit("authority_epoch");
    reveal_strlit("mode");
    assert("owner"@.len() == 5);
    assert("authority_epoch"@.len() == 15);
    assert("mode"@.len() == 4);
    law_mode_names(a.mode);
    match a.owner {
        Some(o) => {
            if o.len() == 0 {
                assert(o =~= Seq::empty());
            }
        },
        None => {},
    }
}

/// The mode of a component by its own record, or by default.
pub open spec fn own_mode(
    comps: Map<Seq<char>, Doc>,
    authority: Map<Seq<char>, Auth>,
    comp: Seq<char>,
) -> AuthorityMode {
    if authority.contains_key(comp) {
        authority[comp].mode
    } else {
        default_mode(comps, comp)
    }
}

/// The components that move together when the physics of an entity changes hands.
pub open spec fn island(comps: Map<Seq<char>, Doc>, authority: Map<Seq<char>, Auth>) -> Set<
    Seq<char>,
> {
    Set::new(
        |c: Seq<char>|
            {
                &&& authority.contains_key(c) || comps.contains_key(c) || c == "pos"@ || c == "vel"@
                &&& own_mode(comps, authority, c) == AuthorityMode::ServerPhysicsIsland
            },
    )
}

/// The components that move together, in order.
pub fn physics_island_component_names(
    comps: &StrMap<Json>,
    authority: &StrMap<ComponentAuthority>,
) -> (r: Vec<String>)
    ensures
        texts(r@) == sorted(island(comps@, authority@)),
        strictly_sorted(texts(r@)),
        texts(r@).to_set() == island(comps@, authority@),
{
    let mut names = StrSet::new();
    add_keys(&mut names, authority);
    add_keys(&mut names, comps);
    names.insert("pos");
    names.insert("vel");
    let all = names.members();
    let ghost order = names.order();
    let mut kept = StrSet::new();
    let mut i: usize = 0;
    while i < all.len()
        invariant
            i <= all.len(),
            texts(all@) == order,
            forall|k: Seq<char>|
                #[trigger] kept@.contains(k) <==> order.take(i as int).contains(k) && own_mode(
                    comps@,
                    authority@,
                    k,
                ) == AuthorityMode::ServerPhysicsIsland,
        decreases all.len() - i,
    {
        let ghost seen = order.take(i as int);
        let comp = all[i].as_str();
        let mode = match authority.get(comp) {
            Some(ca) => ca.mode,
            None => default_authority_mode(comps, comp),
        };
        if mode == AuthorityMode::ServerPhysicsIsland {
            kept.insert(comp);
        }
        i = i + 1;
        proof {
            assert(order[i - 1] == all@[i - 1]@);
            assert(order.take(i as int) =~= seen.push(order[i - 1]));
            assert forall|k: Seq<char>| #[trigger] order.take(i as int).contains(k) <==> (
            seen.contains(k) || k == order[i - 1]) by {
                lemma_push_contains(seen, order[i - 1], k);
            }
        }
    }
    proof {
        assert(order.take(i as int) =~= order);
        assert forall|k: Seq<char>| kept@.contains(k) == island(comps@, authority@).contains(k) by {
            assert(order.to_set().contains(k) == order.contains(k));
        }
        assert(kept@ =~= island(comps@, authority@));
    }
    sorted_texts(&kept)
}

impl Ent {
    /// The components of the entity that move together.
    pub open spec fn island(self) -> Set<Seq<char>> {
        island(self.components, self.authority)
    }

    /// The authority that `comp` has once one is recorded.
    pub open spec fn recorded(self, comp: Seq<char>) -> Auth {
        self.ensured(comp).authority[comp]
    }

    /// The entity with the epoch of everything that moves together set.
    pub open spec fn with_island_epoch(self, epoch: u64) -> Ent {
        Ent {
            authority: Map::new(
                |c: Seq<char>| self.authority.contains_key(c) || self.island().contains(c),
                |c: Seq<char>|
                    if self.island().contains(c) {
                        Auth { epoch, ..self.recorded(c) }
                    } else {
                        self.authority[c]
                    },
            ),
            ..self
        }
    }

    /// The highest epoch of some components, and at least `least`.
    pub open spec fn max_epoch(self, names: Seq<Seq<char>>, least: u64) -> u64
        decreases names.len(),
    {
        if names.len() == 0 {
            least
        } else {
            let m = self.max_epoch(names.drop_last(), least);
            let n = self.epoch(names.last());
            if m < n {
                n
            } else {
                m
            }
        }
    }

    /// The highest epoch of what moves together; the position's where nothing does.
    pub open spec fn island_epoch(self) -> u64 {
        let names = sorted(self.island());
        if names.len() == 0 {
            self.epoch("pos"@)
        } else {
            self.max_epoch(names, 0)
        }
    }

    /// The authority over one component handed on, where the old owner held it or
    /// nobody did.
    pub open spec fn handed_on(
        self,
        comp: Seq<char>,
        epoch: u64,
        old: Option<Seq<char>>,
        new: Option<Seq<char>>,
    ) -> Ent {
        let e = self.ensured(comp);
        if e.moves(comp, old) {
            e.with_auth(comp, Auth { owner: new, epoch, ..e.authority[comp] })
        } else {
            e
        }
    }

    /// Whether the authority over a component goes with the physics.
    pub open spec fn moves(self, comp: Seq<char>, old: Option<Seq<char>>) -> bool {
        let a = self.authority[comp];
        a.mode == AuthorityMode::ServerPhysicsIsland && (a.owner is None || (old is Some && a.owner
            == old))
    }

    /// The entity after the authority over some components was handed on.
    pub open spec fn all_handed_on(
        self,
        names: Seq<Seq<char>>,
        epoch: u64,
        old: Option<Seq<char>>,
        new: Option<Seq<char>>,
    ) -> Ent
        decreases names.len(),
    {
        if names.len() == 0 {
            self
        } else {
            self.all_handed_on(names.drop_last(), epoch, old, new).handed_on(
                names.last(),
                epoch,
                old,
                new,
            )
        }
    }

    /// Which of some components are handed on.
    pub open spec fn moved(
        self,
        names: Seq<Seq<char>>,
        epoch: u64,
        old: Option<Seq<char>>,
        new: Option<Seq<char>>,
    ) -> Seq<Seq<char>>
        decreases names.len(),
    {
        if names.len() == 0 {
            Seq::empty()
        } else {
            let before = self.moved(names.drop_last(), epoch, old, new);
            let e = self.all_handed_on(names.drop_last(), epoch, old, new);
            if e.ensured(names.last()).moves(names.last(), old) {
                before.push(names.last())
            } else {
                before
            }
        }
    }

    /// The epoch under which the physics is handed on.
    pub open spec fn next_island_epoch(self) -> u64 {
        succ(self.island_epoch())
    }

    /// The entity after its physics was handed from `old` to `new`.
    pub open spec fn advanced(self, old: Option<Seq<char>>, new: Option<Seq<char>>) -> Ent {
        self.all_handed_on(sorted(self.island()), self.next_island_epoch(), old, new)
    }

    /// The components that are handed from `old` to `new`.
    pub open spec fn advanced_names(self, old: Option<Seq<char>>, new: Option<Seq<char>>) -> Seq<
        Seq<char>,
    > {
        self.moved(sorted(self.island()), self.next_island_epoch(), old, new)
    }

    /// The entity after the epoch of its position was raised, and that of all that
    /// moves with it set to the same.
    pub open spec fn spatially_bumped(self) -> Ent {
        let epoch = self.bumped_epoch();
        self.with_epoch("pos"@, epoch).with_island_epoch(epoch)
    }

    pub open spec fn bumped_epoch(self) -> u64 {
        succ(self.recorded("pos"@).epoch)
    }
}

/// Sets the epoch of everything that moves together.
pub fn set_physics_island_authority_epoch(e: &mut Entity, epoch: u64) -> (r: Vec<String>)
    ensures
        final(e)@ == old(e)@.with_island_epoch(epoch),
        texts(r@) == sorted(old(e)@.island()),
{
    let ghost before = e@;
    let comps = physics_island_component_names(&e.components, &e.authority);
    let ghost names = texts(comps@);
    let mut i: usize = 0;
    while i < comps.len()
        invariant
            i <= comps.len(),
            names == texts(comps@),
            e@ == (Ent { authority: e@.authority, ..before }),
            forall|k: Seq<char>|
                #[trigger] e@.authority.contains_key(k) <==> before.authority.contains_key(k)
                    || names.take(i as int).contains(k),
            forall|k: Seq<char>|
                #[trigger] e@.authority.contains_key(k) ==> e@.authority[k] == if names.take(
                    i as int,
                ).contains(k) {
                    Auth { epoch, ..before.recorded(k) }
                } else {
                    before.authority[k]
                },
        decreases comps.len() - i,
    {
        let ghost seen = names.take(i as int);
        let ghost prior = e@;
        let ghost c = comps@[i as int]@;
        set_component_authority_epoch(e, comps[i].as_str(), epoch);
        i = i + 1;
        proof {
            assert(names[i - 1] == c);
            assert(names.take(i as int) =~= seen.push(c));
            assert forall|k: Seq<char>| #[trigger] names.take(i as int).contains(k) <==> (
            seen.contains(k) || k == c) by {
                lemma_push_contains(seen, c, k);
            }
            assert(prior.recorded(c).owner == before.recorded(c).owner);
            assert(prior.recorded(c).mode == before.recorded(c).mode);
        }
    }
    proof {
        assert(names.take(i as int) =~= names);
        assert forall|k: Seq<char>| before.island().contains(k) == names.contains(k) by {
            assert(names.to_set().contains(k) == names.contains(k));
        }
        assert(e@.authority =~= before.with_island_epoch(epoch).authority);
    }
    comps
}

/// The highest epoch of some components, and at least `least`.
fn max_epoch_of(e: &Entity, comps: &Vec<String>, least: u64) -> (r: u64)
    ensures
        r == e@.max_epoch(texts(comps@), least),
{
    let ghost names = texts(comps@);
    let mut m: u64 = least;
    let mut i: usize = 0;
    while i < comps.len()
        invariant
            i <= comps.len(),
            names == texts(comps@),
            m == e@.max_epoch(names.take(i as int), least),
        decreases comps.len() - i,
    {
        let n: u64 = component_authority_epoch(e, comps[i].as_str());
        if m < n {
            m = n;
        }
        i = i + 1;
        proof {
            assert(names.take(i as int).drop_last() =~= names.take(i - 1));
            assert(names.take(i as int).last() == comps@[i - 1]@);
        }
    }
    proof {
        assert(names.take(i as int) =~= names);
    }
    m
}

/// The highest epoch of what moves together; the position's where nothing does.
pub fn island_epoch(e: &Entity) -> (r: u64)
    ensures
        r == e@.island_epoch(),
{
    let comps = physics_island_component_names(&e.components, &e.authority);
    if comps.len() == 0 {
        component_authority_epoch(e, "pos")
    } else {
        max_epoch_of(e, &comps, 0)
    }
}

/// Hands the physics of an entity from one owner to another, under a new epoch:
/// the epoch, and the components that went.
pub fn advance_physics_island_authority(
    e: &mut Entity,
    old_owner: Option<&str>,
    new_owner: Option<&str>,
) -> (r: (u64, Vec<String>))
    ensures
        r.0 == old(e)@.next_island_epoch(),
        texts(r.1@) == old(e)@.advanced_names(opt_text(old_owner), opt_text(new_owner)),
        final(e)@ == old(e)@.advanced(opt_text(old_owner), opt_text(new_owner)),
{
    let ghost before = e@;
    let ghost o = opt_text(old_owner);
    let ghost w = opt_text(new_owner);
    let comps = physics_island_component_names(&e.components, &e.authority);
    let epoch: u64 = island_epoch(e).saturating_add(1);
    let ghost names = texts(comps@);
    let mut moved: Vec<String> = Vec::new();
    let mut i: usize = 0;
    proof {
        assert(names.take(0) =~= Seq::empty());
        assert(texts(moved@) =~= Seq::empty());
    }
    while i < comps.len()
        invariant
            i <= comps.len(),
            names == texts(comps@),
            o == opt_text(old_owner),
            w == opt_text(new_owner),
            e@ == before.all_handed_on(names.take(i as int), epoch, o, w),
            texts(moved@) == before.moved(names.take(i as int), epoch, o, w),
        decreases comps.len() - i,
    {
        let ghost prior = e@;
        let ghost went = texts(moved@);
        let comp = comps[i].as_str();
        proof {
            assert(names.take(i + 1).drop_last() =~= names.take(i as int));
            assert(names.take(i + 1).last() == comp@);
        }
        ensure_component_authority(e, comp);
        if let Some(ca) = e.authority.remove(comp) {
            let matches: bool = ca.mode == AuthorityMode::ServerPhysicsIsland && match &ca.owner {
                None => true,
                Some(held) => match old_owner {
                    Some(old) => str_eq(held.as_str(), old),
                    None => false,
                },
            };
            if matches {
                e.authority.insert(
                    comp,
                    ComponentAuthority { owner: to_opt_string(new_owner), epoch, mode: ca.mode },
                );
                moved.push(comps[i].clone());
                proof {
                    assert(texts(moved@) =~= went.push(comp@));
                }
            } else {
                e.authority.insert(comp, ca);
            }
        }
        proof {
            assert(e@.authority =~= prior.handed_on(comp@, epoch, o, w).authority);
        }
        i = i + 1;
    }
    proof {
        assert(names.take(i as int) =~= names);
    }
    (epoch, moved)
}

/// Raises the epoch of the position, and sets that of all that moves with it.
pub fn bump_spatial_authority_epoch(e: &mut Entity) -> (r: u64)
    ensures
        r == old(e)@.bumped_epoch(),
        final(e)@ == old(e)@.spatially_bumped(),
{
    let epoch: u64 = bump_component_authority_epoch(e, "pos");
    set_physics_island_authority_epoch(e, epoch);
    epoch
}

}
