//! The clocks that an entity carries: generation, server time and simulated time.

use vstd::prelude::*;
use crate::strmap::Dup;
use crate::doc::{Doc, Json, Num};
use crate::entity::{succ, Ent, Entity};
use crate::json::or_null;
use crate::text::str_eq;

verus! {

broadcast use {crate::doc::group_json, crate::strmap::group_map};

/// The least that simulated time moves with a sample, in milliseconds.
pub const SIM_DT_MS: u64 = 16;

/// The clock in a component; none where it is no unsigned integer.
pub open spec fn stored(e: Ent, comp: Seq<char>) -> Option<u64> {
    if e.components.contains_key(comp) {
        e.components[comp].as_u64()
    } else {
        None
    }
}

/// The clock in a field of the component `physics`.
pub open spec fn stored_physics(e: Ent, field: Seq<char>) -> Option<u64> {
    if e.components.contains_key("physics"@) {
        e.components["physics"@].get_u64(field)
    } else {
        None
    }
}

/// The clock in a component.
pub fn stored_component_u64(e: &Entity, comp: &str) -> (r: Option<u64>)
    ensures
        r == stored(e@, comp@),
{
    match e.components.get(comp) {
        Some(v) => v.as_u64(),
        None => None,
    }
}

/// The clock in a field of the component `physics`.
pub fn stored_physics_field_u64(e: &Entity, field: &str) -> (r: Option<u64>)
    ensures
        r == stored_physics(e@, field@),
{
    match e.components.get("physics") {
        Some(v) => v.get_u64(field),
        None => None,
    }
}

/// The generation after a sample: one more; what the writer says where there was
/// none, and 1 where it says nothing.
pub open spec fn next_gen(current: Option<u64>, supplied: Doc) -> u64 {
    match current {
        Some(n) => succ(n),
        None => match supplied.as_u64() {
            Some(n) => n,
            None => 1,
        },
    }
}

/// The generation after a sample.
pub fn next_gen_value(current: Option<u64>, supplied: &Json) -> (r: u64)
    ensures
        r == next_gen(current, supplied@),
{
    match current {
        Some(n) => n.saturating_add(1),
        None => match supplied.as_u64() {
            Some(n) => n,
            None => 1,
        },
    }
}

/// The server time after a sample: the wall clock, but never back.
pub open spec fn next_server_time(current: Option<u64>, now_ms: u64) -> u64 {
    match current {
        Some(n) => if succ(n) > now_ms {
            succ(n)
        } else {
            now_ms
        },
        None => now_ms,
    }
}

/// The server time after a sample.
pub fn next_server_time_value(current: Option<u64>, now_ms: u64) -> (r: u64)
    ensures
        r == next_server_time(current, now_ms),
{
    match current {
        Some(n) => {
            let floor: u64 = n.saturating_add(1);
            if floor > now_ms {
                floor
            } else {
                now_ms
            }
        },
        None => now_ms,
    }
}

/// A number that many milliseconds on, or the highest there is.
pub open spec fn plus(n: u64, d: u64) -> u64 {
    if n + d > u64::MAX {
        u64::MAX
    } else {
        (n + d) as u64
    }
}

/// The simulated time after a sample: a step on, or what the writer says where
/// that is later.
pub open spec fn next_sim_time(current: Option<u64>, supplied: Doc) -> u64 {
    let said = match supplied.as_u64() {
        Some(n) => n,
        None => 0,
    };
    let step = match current {
        Some(n) => plus(n, SIM_DT_MS),
        None => SIM_DT_MS,
    };
    if said > step {
        said
    } else {
        step
    }
}

/// The simulated time after a sample.
pub fn next_sim_time_value(current: Option<u64>, supplied: &Json) -> (r: u64)
    ensures
        r == next_sim_time(current, supplied@),
{
    let said: u64 = match supplied.as_u64() {
        Some(n) => n,
        None => 0,
    };
    let step: u64 = match current {
        Some(n) => n.saturating_add(SIM_DT_MS),
        None => SIM_DT_MS,
    };
    if said > step {
        said
    } else {
        step
    }
}

/// A clock as a document.
pub open spec fn clock_doc(n: u64) -> Doc {
    Doc::Num(Num::Pos(n))
}

/// The value that is written for a component: clocks are set by the broker, all
/// else is what the writer says.
pub open spec fn normalized(e: Ent, comp: Seq<char>, value: Doc, now_ms: u64) -> Doc {
    if comp == "gen"@ {
        clock_doc(next_gen(stored(e, "gen"@), value))
    } else if comp == "t_server"@ {
        clock_doc(next_server_time(stored(e, "t_server"@), now_ms))
    } else if comp == "sim_time"@ {
        clock_doc(next_sim_time(stored(e, "sim_time"@), value))
    } else if comp == "physics"@ {
        match value {
            Doc::Obj(m) => {
                let m1 = m.insert(
                    "gen"@,
                    clock_doc(next_gen(stored_physics(e, "gen"@), or_null(value.get("gen"@)))),
                );
                let m2 = m1.insert(
                    "t_server"@,
                    clock_doc(next_server_time(stored_physics(e, "t_server"@), now_ms)),
                );
                Doc::Obj(
                    m2.insert(
                        "sim_time"@,
                        clock_doc(
                            next_sim_time(
                                stored_physics(e, "sim_time"@),
                                or_null(Doc::Obj(m2).get("sim_time"@)),
                            ),
                        ),
                    ),
                )
            },
            _ => value,
        }
    } else {
        value
    }
}

/// The value that is written for a component.
pub fn normalize_physics_clock_write(e: &Entity, comp: &str, value: Json, now_ms: u64) -> (r: Json)
    ensures
        r@ == normalized(e@, comp@, value@, now_ms),
{
    if str_eq(comp, "gen") {
        Json::u64(next_gen_value(stored_component_u64(e, "gen"), &value))
    } else if str_eq(comp, "t_server") {
        Json::u64(next_server_time_value(stored_component_u64(e, "t_server"), now_ms))
    } else if str_eq(comp, "sim_time") {
        Json::u64(next_sim_time_value(stored_component_u64(e, "sim_time"), &value))
    } else if str_eq(comp, "physics") {
        let supplied_gen = value.member("gen");
        match value {
            Json::Obj(m) => {
                let mut out = m;
                out.insert(
                    "gen",
                    Json::u64(next_gen_value(stored_physics_field_u64(e, "gen"), &supplied_gen)),
                );
                out.insert(
                    "t_server",
                    Json::u64(
                        next_server_time_value(stored_physics_field_u64(e, "t_server"), now_ms),
                    ),
                );
                let supplied_sim = match out.get("sim_time") {
                    Some(v) => v.dup(),
                    None => Json::Null,
                };
                out.insert(
                    "sim_time",
                    Json::u64(
                        next_sim_time_value(stored_physics_field_u64(e, "sim_time"), &supplied_sim),
                    ),
                );
                Json::Obj(out)
            },
            other => other,
        }
    } else {
        value
    }
}

/// Time does not run back: the generation, the server time and the simulated time
/// that are written are later than those before, until the highest there is.
pub proof fn law_clocks_advance(e: Ent, value: Doc, now_ms: u64)
    ensures
        forall|n: u64|
            stored(e, "gen"@) == Some(n) && n < u64::MAX ==> normalized(
                e,
                "gen"@,
                value,
                now_ms,
            ).as_u64()->0 > n,
        forall|n: u64|
            stored(e, "t_server"@) == Some(n) && n < u64::MAX ==> normalized(
                e,
                "t_server"@,
                value,
                now_ms,
            ).as_u64()->0 > n,
        forall|n: u64|
            stored(e, "sim_time"@) == Some(n) && n <= u64::MAX - SIM_DT_MS ==> normalized(
                e,
                "sim_time"@,
                value,
                now_ms,
            ).as_u64()->0 >= n + SIM_DT_MS,
{
    reveal_strlit("gen");
    reveal_strlit("t_server");
    reveal_strlit("sim_time");
    reveal_strlit("physics");
    assert("gen"@.len() == 3);
    assert("t_server"@.len() == 8);
    assert("sim_time"@.len() == 8);
    assert("t_server"@[0] != "sim_time"@[0]);
}

}
