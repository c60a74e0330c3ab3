//! The replay tape: a bounded, redacted record of what the broker saw and did.

use vstd::prelude::*;
use crate::doc::{json_text, Doc, Json};
use crate::strmap::{texts, StrMap};
use crate::text::{parse_usize, str_eq, trim, trimmed, unsigned_value};

verus! {

broadcast use crate::doc::group_json;

/// How many lines the tape holds unless told otherwise.
pub const DEFAULT_TAPE_CAPACITY: usize = 8192;

/// The members that never reach the tape: credentials and component bodies.
pub open spec fn redacted_keys() -> Set<Seq<char>> {
    set!["auth_token"@, "value"@, "payload"@, "components"@, "updates"@]
}

fn is_redacted_key(k: &str) -> (r: bool)
    ensures
        r == redacted_keys().contains(k@),
{
    str_eq(k, "auth_token") || str_eq(k, "value") || str_eq(k, "payload") || str_eq(k, "components")
        || str_eq(k, "updates")
}

/// A document without the redacted members, at any depth.
pub open spec fn sanitized(d: Doc) -> Doc
    decreases d,
{
    match d {
        Doc::Arr(s) => Doc::Arr(
            Seq::new(s.len(), |i: int| if 0 <= i < s.len() { sanitized(s[i]) } else { Doc::Null }),
        ),
        Doc::Obj(m) => Doc::Obj(
            Map::new(
                |k: Seq<char>| m.contains_key(k) && !redacted_keys().contains(k),
                |k: Seq<char>| if m.contains_key(k) { sanitized(m[k]) } else { Doc::Null },
            ),
        ),
        other => other,
    }
}

/// Whether no object in `d`, at any depth, has a redacted member.
pub open spec fn clean(d: Doc) -> bool
    decreases d,
{
    match d {
        Doc::Arr(s) => forall|i: int| 0 <= i < s.len() ==> clean(#[trigger] s[i]),
        Doc::Obj(m) => forall|k: Seq<char>|
            m.contains_key(k) ==> !redacted_keys().contains(k) && clean(#[trigger] m[k]),
        _ => true,
    }
}

/// Nothing redacted is left, however deep it was.
pub proof fn law_sanitized_is_clean(d: Doc)
    ensures
        clean(sanitized(d)),
    decreases d,
{
    match d {
        Doc::Arr(s) => {
            let t = sanitized(d)->Arr_0;
            assert forall|i: int| 0 <= i < t.len() implies clean(#[trigger] t[i]) by {
                law_sanitized_is_clean(s[i]);
            }
        },
        Doc::Obj(m) => {
            let t = sanitized(d)->Obj_0;
            assert forall|k: Seq<char>| t.contains_key(k) implies !redacted_keys().contains(k)
                && clean(#[trigger] t[k]) by {
                law_sanitized_is_clean(m[k]);
            }
        },
        _ => {},
    }
}

/// What holds nothing redacted goes onto the tape as it is.
pub proof fn law_clean_is_kept(d: Doc)
    requires
        clean(d),
    ensures
        sanitized(d) == d,
    decreases d,
{
    match d {
        Doc::Arr(s) => {
            let t = sanitized(d)->Arr_0;
            assert forall|i: int| 0 <= i < t.len() implies t[i] == s[i] by {
                law_clean_is_kept(s[i]);
            }
            assert(t =~= s);
        },
        Doc::Obj(m) => {
            let t = sanitized(d)->Obj_0;
            assert forall|k: Seq<char>| #[trigger] t.contains_key(k) == m.contains_key(k) by {
                if m.contains_key(k) {
                    assert(clean(m[k]));
                }
            }
            assert forall|k: Seq<char>| m.contains_key(k) implies #[trigger] t[k] == m[k] by {
                assert(clean(m[k]));
                law_clean_is_kept(m[k]);
            }
            assert(t =~= m);
        },
        _ => {},
    }
}

/// Takes the redacted members out of an event.
pub fn sanitize_tape_event(event: &Json) -> (r: Json)
    ensures
        r@ == sanitized(event@),
        clean(r@),
    decreases event,
{
    proof {
        law_sanitized_is_clean(event@);
    }
    match event {
        Json::Null => Json::Null,
        Json::Bool(b) => Json::Bool(*b),
        Json::Num(n) => Json::Num(n.clone()),
        Json::Str(s) => Json::Str(s.clone()),
        Json::Arr(v) => {
            let mut out: Vec<Json> = Vec::new();
            let mut i: usize = 0;
            while i < v.len()
                invariant
                    i <= v.len(),
                    *event == Json::Arr(*v),
                    out.len() == i,
                    forall|j: int| 0 <= j < i ==> (#[trigger] out@[j])@ == sanitized(v@[j]@),
                decreases v.len() - i,
            {
                proof {
                    assert(decreases_to!(*event => event->Arr_0));
                    assert(decreases_to!(*v => v[i as int]));
                }
                out.push(sanitize_tape_event(&v[i]));
                i = i + 1;
            }
            let r = Json::Arr(out);
            proof {
                assert(r@->Arr_0 =~= sanitized(event@)->Arr_0);
            }
            r
        },
        Json::Obj(m) => {
            let mut out: StrMap<Json> = StrMap::new();
            let n: usize = m.len();
            let mut i: usize = 0;
            while i < n
                invariant
                    i <= n == m.order().len(),
                    *event == Json::Obj(*m),
                    m.order().no_duplicates(),
                    forall|k: Seq<char>|
                        #[trigger] out@.contains_key(k) <==> m.order().take(i as int).contains(k)
                            && !redacted_keys().contains(k),
                    forall|k: Seq<char>|
                        #[trigger] out@.contains_key(k) ==> m@.contains_key(k) && out@[k]
                            == sanitized(m@[k]),
                decreases n - i,
            {
                let ghost seen = m.order().take(i as int);
                let key = m.key_at(i);
                if !is_redacted_key(key) {
                    let part = m.raw_value(i);
                    proof {
                        assert(decreases_to!(*event => event->Obj_0));
                        assert(decreases_to!(*m => m.items));
                        assert(decreases_to!(m.items => m.items[i as int]));
                        assert(decreases_to!(m.items[i as int] => m.items[i as int].1));
                    }
                    let v = sanitize_tape_event(part);
                    out.insert(key, v);
                }
                i = i + 1;
                proof {
                    assert(m.order().take(i as int) =~= seen.push(m.order()[i - 1]));
                    assert forall|k: Seq<char>|
                        #[trigger] out@.contains_key(k) <==> m.order().take(i as int).contains(k)
                            && !redacted_keys().contains(k) by {
                        crate::json::lemma_push_contains(seen, m.order()[i - 1], k);
                    }
                }
            }
            let r = Json::Obj(out);
            proof {
                assert(m.order().take(n as int) =~= m.order());
                assert forall|k: Seq<char>| m@.contains_key(k) == m.order().contains(k) by {
                    assert(m.order().to_set().contains(k) == m.order().contains(k));
                }
                assert(r@->Obj_0 =~= sanitized(event@)->Obj_0);
            }
            r
        },
    }
}

/// Where the tape goes, and how much of it waits to be written.
pub struct ReplayTape {
    capacity: usize,
    open: bool,
    lines: Vec<String>,
    dropped: u64,
}

/// A tape by its views.
pub ghost struct Tape {
    pub capacity: nat,
    pub open: bool,
    pub lines: Seq<Seq<char>>,
    pub dropped: u64,
}

impl View for ReplayTape {
    type V = Tape;

    closed spec fn view(&self) -> Tape {
        Tape {
            capacity: self.capacity as nat,
            open: self.open,
            lines: texts(self.lines@),
            dropped: self.dropped,
        }
    }
}

impl Tape {
    /// The tape never holds more than its capacity, which is not zero.
    pub open spec fn wf(self) -> bool {
        0 < self.capacity && self.lines.len() <= self.capacity
    }

    /// The tape after an event: a line more, or a drop more where there is no room
    /// or nobody to write it.
    pub open spec fn recorded(self, event: Doc) -> Tape {
        if self.open && self.lines.len() < self.capacity {
            Tape { lines: self.lines.push(json_text(sanitized(event))), ..self }
        } else {
            Tape { dropped: if self.dropped == u64::MAX { 0 } else { (self.dropped + 1) as u64 }, ..self }
        }
    }
}

/// The capacity that a configuration text asks for: a positive number, or the
/// default.
pub open spec fn configured_capacity(text: Option<Seq<char>>) -> nat {
    match text {
        Some(t) => match unsigned_value(t) {
            Some(n) => if 0 < n <= usize::MAX {
                n
            } else {
                DEFAULT_TAPE_CAPACITY as nat
            },
            None => DEFAULT_TAPE_CAPACITY as nat,
        },
        None => DEFAULT_TAPE_CAPACITY as nat,
    }
}

impl ReplayTape {
    /// A tape for the path and capacity that the environment names; none where it
    /// names no path.
    pub fn from_env(path: Option<&str>, capacity: Option<&str>) -> (r: Option<ReplayTape>)
        ensures
            match r {
                Some(t) => {
                    &&& path is Some
                    &&& trimmed(path->0@).len() > 0
                    &&& t@ == (Tape {
                        capacity: configured_capacity(crate::json::opt_str(capacity)),
                        open: true,
                        lines: Seq::empty(),
                        dropped: 0,
                    })
                },
                None => path is None || trimmed(path->0@).len() == 0,
            },
    {
        match path {
            None => None,
            Some(p) => {
                let t = trim(p);
                if t.as_str().is_empty() {
                    return None;
                }
                let n: usize = match capacity {
                    Some(c) => match parse_usize(c) {
                        Some(n) => if n > 0 {
                            n
                        } else {
                            DEFAULT_TAPE_CAPACITY
                        },
                        None => DEFAULT_TAPE_CAPACITY,
                    },
                    None => DEFAULT_TAPE_CAPACITY,
                };
                Some(ReplayTape::open_path(n))
            },
        }
    }

    /// An empty tape that holds `capacity` lines, and one line at least.
    pub fn open_path(capacity: usize) -> (r: ReplayTape)
        ensures
            r@ == (Tape {
                capacity: if capacity == 0 { 1 } else { capacity as nat },
                open: true,
                lines: Seq::empty(),
                dropped: 0,
            }),
            r@.wf(),
    {
        let r = ReplayTape {
            capacity: if capacity == 0 { 1 } else { capacity },
            open: true,
            lines: Vec::new(),
            dropped: 0,
        };
        proof {
            assert(r@.lines =~= Seq::empty());
        }
        r
    }

    /// Records an event without its redacted members, or counts it as dropped.
    pub fn record(&mut self, event: &Json)
        ensures
            final(self)@ == old(self)@.recorded(event@),
            old(self)@.wf() ==> final(self)@.wf(),
    {
        let line = sanitize_tape_event(event).text();
        if self.open && self.lines.len() < self.capacity {
            self.lines.push(line);
            proof {
                assert(self@.lines =~= old(self)@.recorded(event@).lines);
            }
        } else {
            self.dropped = self.dropped.wrapping_add(1);
        }
    }

    /// Hands the waiting lines to the writer.
    pub fn take_lines(&mut self) -> (r: Vec<String>)
        ensures
            texts(r@) == old(self)@.lines,
            final(self)@ == (Tape { lines: Seq::empty(), ..old(self)@ }),
    {
        let mut out: Vec<String> = Vec::new();
        core::mem::swap(&mut self.lines, &mut out);
        proof {
            assert(self@.lines =~= Seq::empty());
        }
        out
    }

    /// Marks that nobody writes the tape any more.
    pub fn close(&mut self)
        ensures
            final(self)@ == (Tape { open: false, ..old(self)@ }),
    {
        self.open = false;
    }

    /// How many events were dropped.
    pub fn dropped(&self) -> (r: u64)
        ensures
            r == self@.dropped,
    {
        self.dropped
    }
}

}
