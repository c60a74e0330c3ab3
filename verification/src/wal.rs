//! The write-ahead log: one event per line, each line sealed with a checksum.
//!
//! A log of version 1 starts with a header line, and every event stands in an
//! envelope `{"_c": checksum, "_d": text of the event}`. A log of version 0 has no
//! header and bare event lines.

use vstd::prelude::*;
use vstd::string::*;
use vstd::utf8::encode_utf8;
use crate::crc::{crc32, crc32_ieee};
use crate::doc::{docs, json_parse, json_text, max_depth, shallow, Doc, Json, Num};
use crate::json::opt_json;
use crate::strmap::{texts, Dup, StrMap};
use crate::text::{decimal, opt_string, str_eq, trim, trim_start, trimmed, u64_text};

verus! {

broadcast use crate::doc::group_json;

/// The newest version that is understood.
pub const WAL_VERSION: u64 = 1;

/// What a line of the log holds.
pub enum WalLine {
    Event(Json),
    Corrupt,
}

impl View for WalLine {
    type V = Option<Doc>;

    open spec fn view(&self) -> Option<Doc> {
        match self {
            WalLine::Event(v) => Some(v@),
            WalLine::Corrupt => None,
        }
    }
}

/// What reading a log found.
pub struct WalReadReport {
    pub wal_version: u64,
    pub selected_event_count: u64,
    pub decoded_record_count: u64,
    pub corrupt_tail_record_count: u64,
    pub truncated_tail_bytes: u64,
    /// How many bytes of the log come before the corrupt tail.
    pub recoverable_prefix_bytes: u64,
    pub unknown_kind_count: u64,
    pub kind_counts: StrMap<u64>,
    pub unknown_kinds: StrMap<u64>,
    /// Why the log must not be served.
    pub error: Option<String>,
}

/// The events of a log, and the report.
pub struct WalReadResult {
    pub events: Vec<Json>,
    pub report: WalReadReport,
}

/// A `WalReadReport` by its views.
#[verifier::ext_equal]
pub struct Report {
    pub wal_version: u64,
    pub selected_event_count: nat,
    pub decoded_record_count: nat,
    pub corrupt_tail_record_count: nat,
    pub truncated_tail_bytes: nat,
    pub recoverable_prefix_bytes: nat,
    pub unknown_kind_count: nat,
    pub kind_counts: Map<Seq<char>, u64>,
    pub unknown_kinds: Map<Seq<char>, u64>,
    pub error: Option<Seq<char>>,
}

impl View for WalReadReport {
    type V = Report;

    open spec fn view(&self) -> Report {
        Report {
            wal_version: self.wal_version,
            selected_event_count: self.selected_event_count as nat,
            decoded_record_count: self.decoded_record_count as nat,
            corrupt_tail_record_count: self.corrupt_tail_record_count as nat,
            truncated_tail_bytes: self.truncated_tail_bytes as nat,
            recoverable_prefix_bytes: self.recoverable_prefix_bytes as nat,
            unknown_kind_count: self.unknown_kind_count as nat,
            kind_counts: self.kind_counts@,
            unknown_kinds: self.unknown_kinds@,
            error: opt_string(self.error),
        }
    }
}

/// Whether a text is a line of its own: not blank, without a line break, and with
/// nothing to trim.
pub open spec fn is_line(s: Seq<char>) -> bool {
    s.len() > 0 && trimmed(s) == s && !s.contains('\n')
}

/// The header of a log of the current version.
pub open spec fn header_doc() -> Doc {
    Doc::Obj(map!["kind"@ => Doc::Str("wal_header"@), "wal_version"@ => Doc::Num(Num::Pos(1))])
}

/// The header line of a log of the current version.
pub fn wal_v1_header_line() -> (r: String)
    ensures
        r@ == json_text(header_doc()),
        json_parse(r@) == Some(header_doc()),
        is_line(r@),
{
    let j = StrMap::new().with("kind", Json::str("wal_header")).with(
        "wal_version",
        Json::u64(WAL_VERSION),
    ).done();
    proof {
        lemma_flat(header_doc(), max_depth());
    }
    let r = j.text();
    proof {
        lemma_braces(r@);
    }
    r
}

/// An object of scalars is one level deep.
proof fn lemma_flat(d: Doc, n: nat)
    requires
        n > 0,
        d is Obj,
        forall|k: Seq<char>| d->Obj_0.contains_key(k) ==> !((#[trigger] d->Obj_0[k]) is Obj) && !(
        d->Obj_0[k] is Arr),
    ensures
        shallow(d, n),
{
    assert forall|k: Seq<char>| d->Obj_0.contains_key(k) implies shallow(
        #[trigger] d->Obj_0[k],
        (n - 1) as nat,
    ) by {}
}

/// A text between braces has nothing to trim.
proof fn lemma_braces(s: Seq<char>)
    requires
        s.len() > 0,
        s[0] == '{',
        s.last() == '}',
    ensures
        trimmed(s) == s,
{
    assert(trim_start(s) == s);
}

/// The envelope of an event.
pub open spec fn envelope_doc(ev: Doc) -> Doc {
    let payload = json_text(ev);
    Doc::Obj(
        map![
            "_c"@ => Doc::Num(Num::Pos(crc32(encode_utf8(payload)) as u64)),
            "_d"@ => Doc::Str(payload)],
    )
}

/// Seals an event in an envelope. What was sealed is what is read: the line
/// decodes to the event again, in a log of either version, unless the event is
/// nested too deep to be read at all.
pub fn wal_v1_envelope_line(ev: &Json) -> (r: String)
    ensures
        r@ == json_text(envelope_doc(ev@)),
        shallow(ev@, max_depth()) ==> decoded(r@, true) == Some(ev@),
        shallow(ev@, max_depth()) ==> decoded(r@, false) == Some(ev@),
        is_line(r@),
{
    let payload = ev.text();
    let crc: u32 = crc32_ieee(payload.as_str().as_bytes());
    let j = StrMap::new().with("_c", Json::u64(crc as u64)).with("_d", Json::Str(payload)).done();
    proof {
        assert(j@ == envelope_doc(ev@));
        lemma_flat(envelope_doc(ev@), max_depth());
        if shallow(ev@, max_depth()) {
            lemma_open(ev@, true);
            lemma_open(ev@, false);
        }
    }
    let r = j.text();
    proof {
        lemma_braces(r@);
    }
    r
}

/// The event that a parsed line holds.
pub open spec fn opened(v: Doc, v1: bool) -> Option<Doc> {
    match (v.get_u64("_c"@), v.get_str("_d"@)) {
        (Some(c), Some(d)) => if crc32(encode_utf8(d)) as u64 == c {
            json_parse(d)
        } else {
            None
        },
        _ => if v1 {
            None
        } else {
            Some(v)
        },
    }
}

/// The event that a line holds; nothing where the line is corrupt.
pub open spec fn decoded(line: Seq<char>, v1: bool) -> Option<Doc> {
    match json_parse(line) {
        Some(v) => opened(v, v1),
        None => None,
    }
}

/// Takes a line of the log apart. Where the log is of version 1 a line without an
/// envelope is corrupt.
pub fn decode_wal_line(line: &str, v1_mode: bool) -> (r: WalLine)
    ensures
        r@ == decoded(line@, v1_mode),
{
    match Json::parse(line) {
        Some(v) => open_wal_value(v, v1_mode),
        None => WalLine::Corrupt,
    }
}

/// Takes a parsed line of the log apart.
pub fn open_wal_value(v: Json, v1_mode: bool) -> (r: WalLine)
    ensures
        r@ == opened(v@, v1_mode),
{
    if let Some(c) = v.get_u64("_c") {
        if let Some(d) = v.get_str("_d") {
            if crc32_ieee(d.as_bytes()) as u64 != c {
                return WalLine::Corrupt;
            }
            return match Json::parse(d) {
                Some(ev) => WalLine::Event(ev),
                None => WalLine::Corrupt,
            };
        }
    }
    if v1_mode {
        return WalLine::Corrupt;
    }
    WalLine::Event(v)
}

/// An envelope opens to the event it was made for.
proof fn lemma_open(ev: Doc, v1: bool)
    requires
        json_parse(json_text(ev)) == Some(ev),
    ensures
        opened(envelope_doc(ev), v1) == Some(ev),
{
    reveal_strlit("_c");
    reveal_strlit("_d");
    assert("_c"@[1] != "_d"@[1]);
}

/// The kind of an event; empty where it has none.
pub open spec fn kind_of(ev: Doc) -> Seq<char> {
    match ev.get_str("kind"@) {
        Some(k) => k,
        None => Seq::empty(),
    }
}

/// The kind of an event; empty where it has none.
pub fn wal_event_kind(ev: &Json) -> (r: String)
    ensures
        r@ == kind_of(ev@),
{
    match ev.get_str("kind") {
        Some(k) => k.to_owned(),
        None => String::new(),
    }
}

/// The kinds of events that replay knows.
pub open spec fn known_kinds() -> Set<Seq<char>> {
    set![
        "register"@, "write"@, "component_add"@, "component_remove"@, "delete_tombstone"@,
        "transfer"@, "authority_epoch"@, "failover_grant"@, "block_migration"@,
        "component_authority"@, "threshold_prepare"@, "threshold_preload_ready"@,
        "threshold_commit"@, "threshold_adopt"@, "threshold_abort"@, "mesh_out"@, "mesh_acked"@,
        "partition_config"@, "reserve_entity_ids"@, "snapshot_marker"@
    ]
}

/// Whether a kind of event is known.
pub fn is_known_wal_event_kind(kind: &str) -> (r: bool)
    ensures
        r == known_kinds().contains(kind@),
{
    str_eq(kind, "register") || str_eq(kind, "write") || str_eq(kind, "component_add") || str_eq(
        kind,
        "component_remove",
    ) || str_eq(kind, "delete_tombstone") || str_eq(kind, "transfer") || str_eq(
        kind,
        "authority_epoch",
    ) || str_eq(kind, "failover_grant") || str_eq(kind, "block_migration") || str_eq(
        kind,
        "component_authority",
    ) || str_eq(kind, "threshold_prepare") || str_eq(kind, "threshold_preload_ready") || str_eq(
        kind,
        "threshold_commit",
    ) || str_eq(kind, "threshold_adopt") || str_eq(kind, "threshold_abort") || str_eq(
        kind,
        "mesh_out",
    ) || str_eq(kind, "mesh_acked") || str_eq(kind, "partition_config") || str_eq(
        kind,
        "reserve_entity_ids",
    ) || str_eq(kind, "snapshot_marker")
}

/// The bytes that a line takes in the log, with its line break.
pub open spec fn span(line: Seq<char>) -> nat {
    encode_utf8(line).len() + 1
}

/// The bytes that lines take in the log.
pub open spec fn total_span(lines: Seq<Seq<char>>) -> nat
    decreases lines.len(),
{
    if lines.len() == 0 {
        0
    } else {
        total_span(lines.drop_last()) + span(lines.last())
    }
}

/// The first line at `i` or after it that is not blank.
pub open spec fn first_line(lines: Seq<Seq<char>>, i: int) -> int
    decreases lines.len() - i,
{
    if i >= lines.len() {
        lines.len() as int
    } else if trimmed(lines[i]).len() > 0 {
        i
    } else {
        first_line(lines, i + 1)
    }
}

/// The version that a header states; 0 where it states none, and where `v` is no
/// header.
pub open spec fn stated_version(v: Option<Doc>) -> u64 {
    match v {
        Some(d) => if d.get_str("kind"@) == Some("wal_header"@) {
            match d.get_u64("wal_version"@) {
                Some(n) => n,
                None => 0,
            }
        } else {
            0
        },
        None => 0,
    }
}

/// The version of a log: what its first line states, where that is a header.
pub open spec fn log_version(lines: Seq<Seq<char>>) -> u64 {
    let i = first_line(lines, 0);
    if i < lines.len() {
        stated_version(json_parse(trimmed(lines[i])))
    } else {
        0
    }
}

/// A record of the log: its event, or nothing where it is corrupt; its bytes; and
/// the offset at which it ends.
pub struct Rec {
    pub ev: Option<Doc>,
    pub bytes: nat,
    pub end: nat,
}

/// Whether a line is a record: not blank, and no header.
pub open spec fn is_record(line: Seq<char>, v1: bool) -> bool {
    &&& trimmed(line).len() > 0
    &&& match decoded(trimmed(line), v1) {
        Some(d) => d.get_str("kind"@) != Some("wal_header"@),
        None => true,
    }
}

/// The records of a log whose header is line `header`.
pub open spec fn records(lines: Seq<Seq<char>>, v1: bool, header: int) -> Seq<Rec>
    decreases lines.len(),
{
    if lines.len() == 0 {
        Seq::empty()
    } else {
        let before = records(lines.drop_last(), v1, header);
        if lines.len() - 1 != header && is_record(lines.last(), v1) {
            before.push(
                Rec {
                    ev: decoded(trimmed(lines.last()), v1),
                    bytes: span(lines.last()),
                    end: total_span(lines),
                },
            )
        } else {
            before
        }
    }
}

/// How many records at the end are corrupt.
pub open spec fn tail_len(recs: Seq<Rec>) -> nat
    decreases recs.len(),
{
    if recs.len() == 0 || recs.last().ev is Some {
        0
    } else {
        1 + tail_len(recs.drop_last())
    }
}

/// The bytes of some records.
pub open spec fn rec_bytes(recs: Seq<Rec>) -> nat
    decreases recs.len(),
{
    if recs.len() == 0 {
        0
    } else {
        rec_bytes(recs.drop_last()) + recs.last().bytes
    }
}

/// Whether a record ends within the offset.
pub open spec fn within(r: Rec, off: Option<u64>) -> bool {
    match off {
        Some(o) => r.end <= o,
        None => true,
    }
}

/// The events of the records that end within the offset.
pub open spec fn selected(recs: Seq<Rec>, off: Option<u64>) -> Seq<Doc>
    decreases recs.len(),
{
    if recs.len() == 0 {
        Seq::empty()
    } else {
        let before = selected(recs.drop_last(), off);
        match recs.last().ev {
            Some(d) => if within(recs.last(), off) {
                before.push(d)
            } else {
                before
            },
            None => before,
        }
    }
}

/// How often each kind occurs, of all kinds or of the unknown ones.
pub open spec fn tally(events: Seq<Doc>, unknown_only: bool) -> Map<Seq<char>, u64>
    decreases events.len(),
{
    if events.len() == 0 {
        Map::empty()
    } else {
        let before = tally(events.drop_last(), unknown_only);
        let k = kind_of(events.last());
        if unknown_only && known_kinds().contains(k) {
            before
        } else {
            before.insert(k, (count_at(before, k) + 1) as u64)
        }
    }
}

/// The count of a kind.
pub open spec fn count_at(m: Map<Seq<char>, u64>, k: Seq<char>) -> u64 {
    if m.contains_key(k) {
        m[k]
    } else {
        0
    }
}

/// How many events are of an unknown kind.
pub open spec fn unknown_events(events: Seq<Doc>) -> nat
    decreases events.len(),
{
    if events.len() == 0 {
        0
    } else {
        unknown_events(events.drop_last()) + if known_kinds().contains(kind_of(events.last())) {
            0nat
        } else {
            1nat
        }
    }
}

/// The report of a log that is refused, or that is not there.
pub open spec fn empty_report(version: u64, error: Option<Seq<char>>) -> Report {
    Report {
        wal_version: version,
        selected_event_count: 0,
        decoded_record_count: 0,
        corrupt_tail_record_count: 0,
        truncated_tail_bytes: 0,
        recoverable_prefix_bytes: 0,
        unknown_kind_count: 0,
        kind_counts: Map::empty(),
        unknown_kinds: Map::empty(),
        error,
    }
}

/// Why a log of a newer version is refused.
pub open spec fn version_error(version: u64) -> Seq<char> {
    "VersionReject: WAL wal_version="@ + decimal(version as nat)
        + " is newer than this broker supports (max "@ + decimal(1)
        + "); refusing to recover"@
}

/// Why a log with damage before a good record is refused.
pub open spec fn integrity_error() -> Seq<char> {
    "RestoreIntegrityError: corrupt WAL record(s) in the MIDDLE of the log (a valid record follows a CRC failure) -- refusing to serve partial/forked state. Repair or restore from a snapshot."@
}

/// The records of a log, by its version.
pub open spec fn log_records(lines: Seq<Seq<char>>) -> Seq<Rec> {
    let v1 = log_version(lines) >= 1;
    records(lines, v1, if v1 { first_line(lines, 0) } else { -1 })
}

/// How many records of a log are corrupt at its end: none are counted so in a log
/// of version 0, where corrupt lines are passed over.
pub open spec fn log_tail(lines: Seq<Seq<char>>) -> nat {
    if log_version(lines) >= 1 {
        tail_len(log_records(lines))
    } else {
        0
    }
}

/// The records of a log before its corrupt tail.
pub open spec fn log_good(lines: Seq<Seq<char>>) -> Seq<Rec> {
    log_records(lines).take(log_records(lines).len() - log_tail(lines))
}

/// Why a log must not be served.
pub open spec fn log_error(lines: Seq<Seq<char>>) -> Option<Seq<char>> {
    if log_version(lines) > 1 {
        Some(version_error(log_version(lines)))
    } else if log_version(lines) == 1 && exists|i: int|
        0 <= i < log_good(lines).len() && (#[trigger] log_good(lines)[i]).ev is None {
        Some(integrity_error())
    } else {
        None
    }
}

/// The events of a log up to an offset.
pub open spec fn log_events(lines: Seq<Seq<char>>, off: Option<u64>) -> Seq<Doc> {
    if log_error(lines) is Some {
        Seq::empty()
    } else {
        selected(log_good(lines), off)
    }
}

/// What is reported of a log.
pub open spec fn log_report(lines: Seq<Seq<char>>, off: Option<u64>) -> Report {
    if log_error(lines) is Some {
        empty_report(log_version(lines), log_error(lines))
    } else {
        let recs = log_records(lines);
        let good = log_good(lines);
        let events = selected(good, off);
        Report {
            wal_version: log_version(lines),
            selected_event_count: events.len(),
            decoded_record_count: events.len(),
            corrupt_tail_record_count: log_tail(lines),
            truncated_tail_bytes: rec_bytes(recs.skip(good.len() as int)),
            recoverable_prefix_bytes: if good.len() < recs.len() {
                (recs[good.len() as int].end - recs[good.len() as int].bytes) as nat
            } else {
                total_span(lines)
            },
            unknown_kind_count: unknown_events(events),
            kind_counts: tally(events, false),
            unknown_kinds: tally(events, true),
            error: None,
        }
    }
}

/// A record as it is read.
struct Scanned {
    ev: Option<Json>,
    bytes: u64,
    end: u64,
}

spec fn scanned(s: Seq<Scanned>) -> Seq<Rec> {
    s.map_values(
        |r: Scanned| Rec { ev: opt_json(r.ev), bytes: r.bytes as nat, end: r.end as nat },
    )
}

impl WalReadResult {
    fn refused(version: u64, error: Option<String>) -> (r: WalReadResult)
        ensures
            docs(r.events@) == Seq::<Doc>::empty(),
            r.report@ == empty_report(version, opt_string(error)),
    {
        let r = WalReadResult {
            events: Vec::new(),
            report: WalReadReport {
                wal_version: version,
                selected_event_count: 0,
                decoded_record_count: 0,
                corrupt_tail_record_count: 0,
                truncated_tail_bytes: 0,
                recoverable_prefix_bytes: 0,
                unknown_kind_count: 0,
                kind_counts: StrMap::new(),
                unknown_kinds: StrMap::new(),
                error,
            },
        };
        proof {
            assert(docs(r.events@) =~= Seq::<Doc>::empty());
        }
        r
    }
}

fn find_first_line(lines: &Vec<String>) -> (r: usize)
    ensures
        r == first_line(texts(lines@), 0),
        r <= lines.len(),
{
    let mut i: usize = 0;
    while i < lines.len()
        invariant
            i <= lines.len(),
            first_line(texts(lines@), i as int) == first_line(texts(lines@), 0),
        decreases lines.len() - i,
    {
        let t = trim(lines[i].as_str());
        if !t.as_str().is_empty() {
            return i;
        }
        i = i + 1;
    }
    i
}

fn header_version(v: &Json) -> (r: u64)
    ensures
        r == stated_version(Some(v@)),
{
    if let Some(k) = v.get_str("kind") {
        if str_eq(k, "wal_header") {
            if let Some(n) = v.get_u64("wal_version") {
                return n;
            }
        }
    }
    0
}

proof fn lemma_take_step(lines: Seq<Seq<char>>, i: int)
    requires
        0 <= i < lines.len(),
    ensures
        lines.take(i + 1).drop_last() == lines.take(i),
        lines.take(i + 1).last() == lines[i],
        total_span(lines.take(i + 1)) == total_span(lines.take(i)) + span(lines[i]),
{
    assert(lines.take(i + 1).drop_last() =~= lines.take(i));
}

proof fn lemma_span_grows(lines: Seq<Seq<char>>, i: int)
    requires
        0 <= i <= lines.len(),
    ensures
        total_span(lines.take(i)) <= total_span(lines),
    decreases lines.len() - i,
{
    if i < lines.len() {
        lemma_take_step(lines, i);
        lemma_span_grows(lines, i + 1);
    } else {
        assert(lines.take(i) =~= lines);
    }
}

/// Reads every line as a record, a blank or a header.
fn scan_lines(lines: &Vec<String>, v1: bool, header: Option<usize>) -> (r: Vec<Scanned>)
    requires
        total_span(texts(lines@)) <= u64::MAX,
    ensures
        scanned(r@) == records(
            texts(lines@),
            v1,
            line_index(header),
        ),
{
    let ghost all = texts(lines@);
    let ghost h: int = line_index(header);
    let mut recs: Vec<Scanned> = Vec::new();
    let mut cumulative: u64 = 0;
    let mut i: usize = 0;
    proof {
        assert(scanned(recs@) =~= records(all.take(0), v1, h));
    }
    while i < lines.len()
        invariant
            i <= lines.len(),
            all == texts(lines@),
            total_span(all) <= u64::MAX,
            h == line_index(header),
            cumulative == total_span(all.take(i as int)),
            scanned(recs@) == records(all.take(i as int), v1, h),
        decreases lines.len() - i,
    {
        proof {
            lemma_take_step(all, i as int);
            lemma_span_grows(all, i + 1);
        }
        let ghost before = recs@;
        let bytes: u64 = lines[i].as_str().as_bytes().len() as u64 + 1;
        cumulative = cumulative + bytes;
        let line = trim(lines[i].as_str());
        let is_header: bool = match header {
            Some(h) => h == i,
            None => false,
        };
        if !line.as_str().is_empty() && !is_header {
            match decode_wal_line(line.as_str(), v1) {
                WalLine::Event(v) => {
                    let skip: bool = match v.get_str("kind") {
                        Some(k) => str_eq(k, "wal_header"),
                        None => false,
                    };
                    if !skip {
                        recs.push(Scanned { ev: Some(v), bytes, end: cumulative });
                        proof {
                            assert(scanned(recs@) =~= scanned(before).push(
                                Rec { ev: Some(v@), bytes: bytes as nat, end: cumulative as nat },
                            ));
                        }
                    }
                },
                WalLine::Corrupt => {
                    recs.push(Scanned { ev: None, bytes, end: cumulative });
                    proof {
                        assert(scanned(recs@) =~= scanned(before).push(
                            Rec { ev: None, bytes: bytes as nat, end: cumulative as nat },
                        ));
                    }
                },
            }
        }
        i = i + 1;
    }
    proof {
        assert(all.take(i as int) =~= all);
    }
    recs
}

spec fn line_index(o: Option<usize>) -> int {
    match o {
        Some(h) => h as int,
        None => -1,
    }
}

/// Cuts the corrupt tail off: how many records it has, and how many bytes.
fn measure_tail(recs: &Vec<Scanned>) -> (r: (usize, u64))
    requires
        rec_bytes(scanned(recs@)) <= u64::MAX,
    ensures
        r.0 == tail_len(scanned(recs@)),
        r.0 <= recs.len(),
        r.1 == rec_bytes(scanned(recs@).skip(recs.len() - r.0)),
{
    let ghost all = scanned(recs@);
    let mut n: usize = recs.len();
    let mut bytes: u64 = 0;
    proof {
        assert(all.take(n as int) =~= all);
        assert(all.skip(n as int) =~= Seq::empty());
    }
    while n > 0 && recs[n - 1].ev.is_none()
        invariant
            n <= recs.len(),
            all == scanned(recs@),
            rec_bytes(all) <= u64::MAX,
            tail_len(all) == tail_len(all.take(n as int)) + (recs.len() - n),
            bytes == rec_bytes(all.skip(n as int)),
        decreases n,
    {
        proof {
            let t = all.take(n as int);
            assert(t.drop_last() =~= all.take(n - 1));
            assert(t.last() == all[n - 1]);
            lemma_rec_bytes_skip(all, n - 1);
        }
        bytes = bytes + recs[n - 1].bytes;
        n = n - 1;
    }
    proof {
        if n > 0 {
            assert(all.take(n as int).last() == all[n - 1]);
        }
        assert(tail_len(all.take(n as int)) == 0);
    }
    (recs.len() - n, bytes)
}

proof fn lemma_rec_bytes_skip(recs: Seq<Rec>, i: int)
    requires
        0 <= i < recs.len(),
    ensures
        rec_bytes(recs.skip(i)) == recs[i].bytes + rec_bytes(recs.skip(i + 1)),
        rec_bytes(recs.skip(i)) <= rec_bytes(recs),
    decreases recs.len(),
{
    let d = recs.drop_last();
    assert(recs.skip(i).drop_last() =~= d.skip(i));
    if i < d.len() {
        lemma_rec_bytes_skip(d, i);
        assert(recs.skip(i + 1).drop_last() =~= d.skip(i + 1));
        assert(d.skip(i)[0] == recs[i]);
    } else {
        assert(recs.skip(i + 1) =~= Seq::empty());
        assert(d.skip(i) =~= Seq::empty());
    }
}

proof fn lemma_records_bounded(lines: Seq<Seq<char>>, v1: bool, header: int)
    ensures
        rec_bytes(records(lines, v1, header)) <= total_span(lines),
        records(lines, v1, header).len() <= lines.len(),
        forall|i: int|
            0 <= i < records(lines, v1, header).len() ==> {
                let r = #[trigger] records(lines, v1, header)[i];
                r.bytes <= r.end <= total_span(lines)
            },
    decreases lines.len(),
{
    if lines.len() > 0 {
        let p = lines.drop_last();
        lemma_records_bounded(p, v1, header);
        let a = records(p, v1, header);
        let b = records(lines, v1, header);
        if b.len() > a.len() {
            assert(b.drop_last() =~= a);
        }
    }
}

/// Counts one more of a kind.
fn count(m: &mut StrMap<u64>, k: &str)
    requires
        count_at(old(m)@, k@) < u64::MAX,
    ensures
        final(m)@ == old(m)@.insert(k@, (count_at(old(m)@, k@) + 1) as u64),
{
    let n: u64 = match m.get(k) {
        Some(n) => *n,
        None => 0,
    };
    m.insert(k, n + 1);
}

proof fn lemma_tally_bounded(events: Seq<Doc>, unknown_only: bool, k: Seq<char>)
    requires
        events.len() <= u64::MAX,
    ensures
        count_at(tally(events, unknown_only), k) <= events.len(),
    decreases events.len(),
{
    if events.len() > 0 {
        lemma_tally_bounded(events.drop_last(), unknown_only, k);
        lemma_tally_bounded(events.drop_last(), unknown_only, kind_of(events.last()));
    }
}

/// Collects the events that end within the offset, and counts their kinds.
fn select_events(recs: &Vec<Scanned>, upto: usize, off: Option<u64>) -> (r: (
    Vec<Json>,
    StrMap<u64>,
    StrMap<u64>,
    u64,
))
    requires
        upto <= recs.len(),
    ensures
        docs(r.0@) == selected(scanned(recs@).take(upto as int), off),
        r.0.len() <= upto,
        r.1@ == tally(docs(r.0@), false),
        r.2@ == tally(docs(r.0@), true),
        r.3 == unknown_events(docs(r.0@)),
{
    let ghost all = scanned(recs@);
    let mut events: Vec<Json> = Vec::new();
    let mut kinds: StrMap<u64> = StrMap::new();
    let mut unknown: StrMap<u64> = StrMap::new();
    let mut unknown_count: u64 = 0;
    let mut i: usize = 0;
    proof {
        assert(docs(events@) =~= selected(all.take(0), off));
        assert(kinds@ =~= tally(docs(events@), false));
        assert(unknown@ =~= tally(docs(events@), true));
    }
    while i < upto
        invariant
            i <= upto <= recs.len(),
            all == scanned(recs@),
            events.len() <= i,
            docs(events@) == selected(all.take(i as int), off),
            kinds@ == tally(docs(events@), false),
            unknown@ == tally(docs(events@), true),
            unknown_count == unknown_events(docs(events@)),
            unknown_count <= i,
        decreases upto - i,
    {
        proof {
            assert(all.take(i + 1).drop_last() =~= all.take(i as int));
            assert(all.take(i + 1).last() == all[i as int]);
        }
        let take_it: bool = match off {
            Some(o) => recs[i].end <= o,
            None => true,
        };
        if take_it {
            if let Some(ev) = &recs[i].ev {
                let kind = wal_event_kind(ev);
                proof {
                    lemma_tally_bounded(docs(events@), false, kind@);
                    lemma_tally_bounded(docs(events@), true, kind@);
                }
                count(&mut kinds, kind.as_str());
                if !is_known_wal_event_kind(kind.as_str()) {
                    count(&mut unknown, kind.as_str());
                    unknown_count = unknown_count + 1;
                }
                let ghost before = docs(events@);
                events.push(ev.dup());
                proof {
                    assert(docs(events@) =~= before.push(ev@));
                    assert(docs(events@).drop_last() =~= before);
                }
            }
        }
        i = i + 1;
    }
    (events, kinds, unknown, unknown_count)
}

/// Reads the events of a log from its lines. Without lines there is no log, and so
/// nothing to restore. A log of version 1 may end in a torn write: its corrupt tail
/// is left out. Damage before a good record, and a version that is not understood,
/// are refused. With an offset, only records that end within it are selected.
pub fn read_wal_events(raw_lines: Option<&Vec<String>>, up_to_offset: Option<u64>) -> (r:
    WalReadResult)
    requires
        match raw_lines {
            Some(l) => total_span(texts(l@)) <= u64::MAX,
            None => true,
        },
    ensures
        match raw_lines {
            Some(l) => {
                &&& docs(r.events@) == log_events(texts(l@), up_to_offset)
                &&& r.report@ == log_report(texts(l@), up_to_offset)
            },
            None => {
                &&& docs(r.events@) == Seq::<Doc>::empty()
                &&& r.report@ == empty_report(1, None)
            },
        },
{
    let lines = match raw_lines {
        Some(l) => l,
        None => return WalReadResult::refused(WAL_VERSION, None),
    };
    let ghost all = texts(lines@);
    let first: usize = find_first_line(lines);
    let mut version: u64 = 0;
    if first < lines.len() {
        let line = trim(lines[first].as_str());
        if let Some(v) = Json::parse(line.as_str()) {
            version = header_version(&v);
        }
    }
    assert(version == log_version(all));
    if version > WAL_VERSION {
        let mut msg = "VersionReject: WAL wal_version=".to_owned();
        msg.append(u64_text(version).as_str());
        msg.append(" is newer than this broker supports (max ");
        msg.append(u64_text(WAL_VERSION).as_str());
        msg.append("); refusing to recover");
        return WalReadResult::refused(version, Some(msg));
    }
    let v1: bool = version >= 1;
    let header: Option<usize> = if v1 { Some(first) } else { None };
    let recs = scan_lines(lines, v1, header);
    let ghost parsed = scanned(recs@);
    proof {
        lemma_records_bounded(all, v1, line_index(header));
        assert(parsed == log_records(all));
    }
    let mut tail: usize = 0;
    let mut tail_bytes: u64 = 0;
    if v1 {
        let (n, b) = measure_tail(&recs);
        tail = n;
        tail_bytes = b;
    } else {
        proof {
            assert(parsed.skip(parsed.len() as int) =~= Seq::empty());
        }
    }
    let good: usize = recs.len() - tail;
    proof {
        assert(tail == log_tail(all));
        assert(log_good(all) == parsed.take(good as int));
    }
    if v1 {
        let mut i: usize = 0;
        while i < good
            invariant
                i <= good <= recs.len(),
                parsed == scanned(recs@),
                raw_lines == Some(lines),
                all == texts(lines@),
                version == log_version(all),
                version == 1,
                log_good(all) == parsed.take(good as int),
                forall|j: int| 0 <= j < i ==> (#[trigger] log_good(all)[j]).ev is Some,
            decreases good - i,
        {
            if recs[i].ev.is_none() {
                proof {
                    assert(log_good(all)[i as int].ev is None);
                    assert(log_error(all) == Some(integrity_error()));
                }
                return WalReadResult::refused(
                    version,
                    Some(
                        "RestoreIntegrityError: corrupt WAL record(s) in the MIDDLE of the log (a valid record follows a CRC failure) -- refusing to serve partial/forked state. Repair or restore from a snapshot.".to_owned(),
                    ),
                );
            }
            i = i + 1;
        }
    }
    assert(log_error(all) is None);
    let prefix: u64 = if good < recs.len() {
        proof {
            assert(parsed[good as int].bytes <= parsed[good as int].end);
        }
        recs[good].end - recs[good].bytes
    } else {
        span_of_lines(lines)
    };
    let (events, kinds, unknown, unknown_count) = select_events(&recs, good, up_to_offset);
    let count: u64 = events.len() as u64;
    WalReadResult {
        events,
        report: WalReadReport {
            wal_version: version,
            selected_event_count: count,
            decoded_record_count: count,
            corrupt_tail_record_count: tail as u64,
            truncated_tail_bytes: tail_bytes,
            recoverable_prefix_bytes: prefix,
            unknown_kind_count: unknown_count,
            kind_counts: kinds,
            unknown_kinds: unknown,
            error: None,
        },
    }
}

fn span_of_lines(lines: &Vec<String>) -> (r: u64)
    requires
        total_span(texts(lines@)) <= u64::MAX,
    ensures
        r == total_span(texts(lines@)),
{
    let ghost all = texts(lines@);
    let mut sum: u64 = 0;
    let mut i: usize = 0;
    while i < lines.len()
        invariant
            i <= lines.len(),
            all == texts(lines@),
            total_span(all) <= u64::MAX,
            sum == total_span(all.take(i as int)),
        decreases lines.len() - i,
    {
        proof {
            lemma_take_step(all, i as int);
            lemma_span_grows(all, i + 1);
        }
        sum = sum + (lines[i].as_str().as_bytes().len() as u64 + 1);
        i = i + 1;
    }
    proof {
        assert(all.take(i as int) =~= all);
    }
    sum
}

/// The records of a log end in order.
proof fn lemma_records_ordered(lines: Seq<Seq<char>>, v1: bool, header: int)
    ensures
        forall|i: int, j: int|
            0 <= i <= j < records(lines, v1, header).len() ==> (#[trigger] records(
                lines,
                v1,
                header,
            )[i]).end <= (#[trigger] records(lines, v1, header)[j]).end,
    decreases lines.len(),
{
    if lines.len() > 0 {
        let p = lines.drop_last();
        lemma_records_ordered(p, v1, header);
        lemma_records_bounded(p, v1, header);
        let a = records(p, v1, header);
        let b = records(lines, v1, header);
        assert forall|i: int, j: int| 0 <= i <= j < b.len() implies (#[trigger] b[i]).end <= (
        #[trigger] b[j]).end by {
            if j < a.len() {
                assert(b[i] == a[i] && b[j] == a[j]);
            } else if i < a.len() {
                assert(b[i] == a[i]);
            }
        }
    }
}

proof fn lemma_selected_prefix(recs: Seq<Rec>, off: u64)
    requires
        forall|i: int, j: int|
            0 <= i <= j < recs.len() ==> (#[trigger] recs[i]).end <= (#[trigger] recs[j]).end,
    ensures
        selected(recs, Some(off)).is_prefix_of(selected(recs, None)),
    decreases recs.len(),
{
    if recs.len() > 0 {
        let d = recs.drop_last();
        assert forall|i: int, j: int| 0 <= i <= j < d.len() implies (#[trigger] d[i]).end <= (
        #[trigger] d[j]).end by {
            assert(d[i] == recs[i] && d[j] == recs[j]);
        }
        lemma_selected_prefix(d, off);
        if recs.last().end <= off {
            assert forall|i: int| 0 <= i < recs.len() implies (#[trigger] recs[i]).end <= off by {
                assert(recs[i].end <= recs[recs.len() - 1].end);
            }
            lemma_selected_all(recs, off);
        }
    }
}

proof fn lemma_selected_all(recs: Seq<Rec>, off: u64)
    requires
        forall|i: int| 0 <= i < recs.len() ==> (#[trigger] recs[i]).end <= off,
    ensures
        selected(recs, Some(off)) == selected(recs, None),
    decreases recs.len(),
{
    if recs.len() > 0 {
        let d = recs.drop_last();
        assert forall|i: int| 0 <= i < d.len() implies (#[trigger] d[i]).end <= off by {
            assert(d[i] == recs[i]);
        }
        lemma_selected_all(d, off);
    }
}

/// Restoring to an offset restores a past of the log: the events that an offset
/// selects are the first of all its events.
pub proof fn law_offset_selects_a_prefix(lines: Seq<Seq<char>>, off: u64)
    ensures
        log_events(lines, Some(off)).is_prefix_of(log_events(lines, None)),
{
    if log_error(lines) is None {
        let v1 = log_version(lines) >= 1;
        let h = if v1 { first_line(lines, 0) } else { -1 };
        lemma_records_ordered(lines, v1, h);
        let all = log_records(lines);
        let good = log_good(lines);
        lemma_tail_bound(all);
        assert forall|i: int, j: int| 0 <= i <= j < good.len() implies (#[trigger] good[i]).end <= (
        #[trigger] good[j]).end by {
            assert(good[i] == all[i] && good[j] == all[j]);
        }
        lemma_selected_prefix(good, off);
    }
}

proof fn lemma_tail_bound(recs: Seq<Rec>)
    ensures
        tail_len(recs) <= recs.len(),
        forall|i: int| recs.len() - tail_len(recs) <= i < recs.len() ==> (#[trigger] recs[i]).ev is None,
    decreases recs.len(),
{
    if recs.len() > 0 && recs.last().ev is None {
        let d = recs.drop_last();
        lemma_tail_bound(d);
        assert forall|i: int| recs.len() - tail_len(recs) <= i < recs.len() implies (
        #[trigger] recs[i]).ev is None by {
            if i < d.len() {
                assert(d[i] == recs[i]);
            }
        }
    }
}

proof fn lemma_sealed_records(lines: Seq<Seq<char>>, evs: Seq<Doc>)
    requires
        lines.len() == evs.len() + 1,
        trimmed(lines[0]).len() > 0,
        forall|i: int| 0 <= i < evs.len() ==> is_line(#[trigger] lines[i + 1]),
        forall|i: int| 0 <= i < evs.len() ==> decoded(#[trigger] lines[i + 1], true) == Some(evs[i]),
        forall|i: int| 0 <= i < evs.len() ==> kind_of(#[trigger] evs[i]) != "wal_header"@,
    ensures
        records(lines, true, 0).len() == evs.len(),
        forall|i: int|
            0 <= i < evs.len() ==> (#[trigger] records(lines, true, 0)[i]).ev == Some(evs[i]),
        selected(records(lines, true, 0), None) == evs,
    decreases evs.len(),
{
    let p = lines.drop_last();
    if evs.len() == 0 {
        assert(records(p, true, 0).len() == 0);
        assert(selected(records(lines, true, 0), None) =~= evs);
    } else {
        let e = evs.drop_last();
        assert forall|i: int| 0 <= i < e.len() implies is_line(#[trigger] p[i + 1]) && decoded(
            p[i + 1],
            true,
        ) == Some(e[i]) by {
            assert(p[i + 1] == lines[i + 1]);
            assert(e[i] == evs[i]);
        }
        assert forall|i: int| 0 <= i < e.len() implies kind_of(#[trigger] e[i]) != "wal_header"@ by {
            assert(e[i] == evs[i]);
        }
        lemma_sealed_records(p, e);
        let n = evs.len() - 1;
        assert(lines.last() == lines[n + 1]);
        assert(kind_of(evs[n]) != "wal_header"@);
        assert(is_record(lines.last(), true));
        let a = records(p, true, 0);
        let b = records(lines, true, 0);
        assert(b.drop_last() =~= a);
        assert(evs =~= e.push(evs[n]));
    }
}

/// What was appended is what is restored: a log that starts with the header and
/// holds one sealed line per event gives back exactly these events, in order, and
/// is not refused.
pub proof fn law_log_round_trip(lines: Seq<Seq<char>>, evs: Seq<Doc>)
    requires
        lines.len() == evs.len() + 1,
        is_line(lines[0]),
        json_parse(lines[0]) == Some(header_doc()),
        forall|i: int| 0 <= i < evs.len() ==> is_line(#[trigger] lines[i + 1]),
        forall|i: int| 0 <= i < evs.len() ==> decoded(#[trigger] lines[i + 1], true) == Some(evs[i]),
        forall|i: int| 0 <= i < evs.len() ==> kind_of(#[trigger] evs[i]) != "wal_header"@,
    ensures
        log_error(lines) is None,
        log_events(lines, None) == evs,
        log_tail(lines) == 0,
{
    reveal_strlit("kind");
    reveal_strlit("wal_version");
    assert("kind"@.len() != "wal_version"@.len());
    assert(first_line(lines, 0) == 0);
    assert(log_version(lines) == 1);
    lemma_sealed_records(lines, evs);
    let recs = log_records(lines);
    if recs.len() > 0 {
        assert(recs[recs.len() - 1].ev is Some);
    }
    assert(log_good(lines) =~= recs);
}

/// Whether a log starts with the header and holds one sealed line per event.
pub open spec fn is_log(lines: Seq<Seq<char>>, evs: Seq<Doc>) -> bool {
    &&& lines.len() == evs.len() + 1
    &&& is_line(lines[0])
    &&& json_parse(lines[0]) == Some(header_doc())
    &&& forall|i: int| 0 <= i < evs.len() ==> is_line(#[trigger] lines[i + 1])
    &&& forall|i: int| 0 <= i < evs.len() ==> decoded(#[trigger] lines[i + 1], true) == Some(evs[i])
    &&& forall|i: int| 0 <= i < evs.len() ==> kind_of(#[trigger] evs[i]) != "wal_header"@
}

proof fn lemma_cut(lines: Seq<Seq<char>>, later: Seq<Seq<char>>, off: u64)
    requires
        lines.len() > 0,
        off == total_span(lines),
    ensures
        selected(records(lines + later, true, 0), Some(off)) == selected(
            records(lines, true, 0),
            None,
        ),
        total_span(lines + later) >= off,
    decreases later.len(),
{
    let all = lines + later;
    if later.len() == 0 {
        assert(all =~= lines);
        lemma_records_bounded(lines, true, 0);
        lemma_selected_all(records(lines, true, 0), off);
    } else {
        let d = later.drop_last();
        lemma_cut(lines, d, off);
        assert(all.drop_last() =~= lines + d);
        let before = records(lines + d, true, 0);
        let recs = records(all, true, 0);
        if recs.len() > before.len() {
            assert(recs.drop_last() =~= before);
        }
    }
}

/// An offset cuts the log where it was: of a log that grew since, the events up to its
/// former length are those that it had then.
pub proof fn law_offset_is_a_cut(
    lines: Seq<Seq<char>>,
    evs: Seq<Doc>,
    later: Seq<Seq<char>>,
    more: Seq<Doc>,
    off: u64,
)
    requires
        is_log(lines, evs),
        is_log(lines + later, evs + more),
        off == total_span(lines),
    ensures
        log_error(lines + later) is None,
        log_events(lines + later, Some(off)) == evs,
{
    let all = lines + later;
    reveal_strlit("kind");
    reveal_strlit("wal_version");
    assert("kind"@.len() != "wal_version"@.len());
    assert(all[0] == lines[0]);
    law_log_round_trip(all, evs + more);
    law_log_round_trip(lines, evs);
    assert(first_line(all, 0) == 0);
    assert(first_line(lines, 0) == 0);
    lemma_sealed_records(all, evs + more);
    lemma_sealed_records(lines, evs);
    lemma_cut(lines, later, off);
    assert(log_version(all) == 1);
    assert(log_good(all) =~= log_records(all));
}

/// A torn write at the end costs nothing else: a log of version 1 with one more
/// line that is corrupt gives the events that it gave without that line, and the
/// report counts one corrupt record more.
pub proof fn law_torn_tail(lines: Seq<Seq<char>>, torn: Seq<char>, off: Option<u64>)
    requires
        log_version(lines) == 1,
        log_error(lines) is None,
        trimmed(torn).len() > 0,
        decoded(trimmed(torn), true) is None,
    ensures
        log_error(lines.push(torn)) is None,
        log_events(lines.push(torn), off) == log_events(lines, off),
        log_tail(lines.push(torn)) == log_tail(lines) + 1,
        log_report(lines.push(torn), off).recoverable_prefix_bytes == log_report(
            lines,
            off,
        ).recoverable_prefix_bytes,
{
    let more = lines.push(torn);
    lemma_first_line(lines, torn, 0);
    let h = first_line(lines, 0);
    assert(more[h] == lines[h]);
    assert(more.drop_last() =~= lines);
    let a = log_records(lines);
    let b = log_records(more);
    assert(b.drop_last() =~= a);
    assert(b.last().ev is None);
    lemma_tail_bound(a);
    assert(log_good(more) =~= log_good(lines));
    let n = log_good(lines).len() as int;
    if n < a.len() {
        assert(b[n] == a[n]);
    }
}

proof fn lemma_first_line(lines: Seq<Seq<char>>, more: Seq<char>, i: int)
    requires
        0 <= i,
        first_line(lines, i) < lines.len(),
    ensures
        0 <= first_line(lines, i),
        first_line(lines.push(more), i) == first_line(lines, i),
    decreases lines.len() - i,
{
    if i < lines.len() {
        assert(lines.push(more)[i] == lines[i]);
        if trimmed(lines[i]).len() == 0 {
            lemma_first_line(lines, more, i + 1);
        }
    }
}

}
