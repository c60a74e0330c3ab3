//! The wire format: a message is its length in four bytes, the highest first, and its text.

use vstd::prelude::*;
use vstd::string::*;
use vstd::utf8::encode_utf8;
use crate::connect::PROTOCOL_VERSION;
use crate::doc::{json_text, Doc, Json, Num};
use crate::strmap::StrMap;
use crate::text::opt_text;

verus! {

broadcast use {crate::doc::group_json, crate::strmap::group_map};

/// The number that four bytes denote, the highest first.
pub open spec fn be_value(b: Seq<u8>) -> int {
    b[0] * 0x100_0000 + b[1] * 0x1_0000 + b[2] * 0x100 + b[3]
}

/// The four bytes of a number, the highest first.
pub open spec fn be_bytes(n: int) -> Seq<u8> {
    seq![
        ((n / 0x100_0000) % 0x100) as u8,
        ((n / 0x1_0000) % 0x100) as u8,
        ((n / 0x100) % 0x100) as u8,
        (n % 0x100) as u8,
    ]
}

/// The bytes of a message on the wire.
pub open spec fn framed(d: Doc) -> Seq<u8> {
    let body = encode_utf8(json_text(d));
    be_bytes(body.len() as int) + body
}

/// The bytes of a message on the wire; none where it is too long for its header.
pub fn frame(v: &Json) -> (r: Option<Vec<u8>>)
    ensures
        match r {
            Some(b) => encode_utf8(json_text(v@)).len() <= u32::MAX && b@ == framed(v@),
            None => encode_utf8(json_text(v@)).len() > u32::MAX,
        },
{
    let text = v.text();
    let body = text.as_str().as_bytes();
    let n: usize = body.len();
    if n as u64 > 0xffff_ffff {
        return None;
    }
    let mut out: Vec<u8> = Vec::new();
    out.push(((n / 0x100_0000) % 0x100) as u8);
    out.push(((n / 0x1_0000) % 0x100) as u8);
    out.push(((n / 0x100) % 0x100) as u8);
    out.push((n % 0x100) as u8);
    let ghost head = out@;
    proof {
        assert(head =~= be_bytes(n as int));
    }
    let mut i: usize = 0;
    while i < n
        invariant
            i <= n == body.len(),
            out@ =~= head + body@.take(i as int),
        decreases n - i,
    {
        out.push(body[i]);
        i = i + 1;
    }
    proof {
        assert(body@.take(i as int) =~= body@);
    }
    Some(out)
}

/// The length that a header announces; none where it is over the limit, and the
/// connection is to be dropped before anything is set aside for it.
pub fn frame_len(header: &[u8; 4], max: usize) -> (r: Option<usize>)
    ensures
        match r {
            Some(n) => n == be_value(header@) && n <= max,
            None => be_value(header@) > max,
        },
{
    let a: u64 = header[0] as u64;
    let b: u64 = header[1] as u64;
    let c: u64 = header[2] as u64;
    let d: u64 = header[3] as u64;
    let n: u64 = a * 0x100_0000 + b * 0x1_0000 + c * 0x100 + d;
    if n > max as u64 {
        None
    } else {
        Some(n as usize)
    }
}

/// The first message of a connection to another broker.
pub open spec fn connect_doc(wid: Seq<char>, region: Seq<char>, token: Option<Seq<char>>) -> Doc {
    let m = map![
        "op"@ => Doc::Str("WorkerConnect"@),
        "worker_id"@ => Doc::Str(wid),
        "region"@ => Doc::Str(region),
        "proto"@ => Doc::Num(Num::Pos(PROTOCOL_VERSION))];
    match token {
        Some(t) => Doc::Obj(m.insert("auth_token"@, Doc::Str(t))),
        None => Doc::Obj(m),
    }
}

/// The first message of a connection to another broker.
pub fn worker_connect_frame(worker_id: &str, region: &str, auth_token: Option<&str>) -> (r: Json)
    ensures
        r@ == connect_doc(worker_id@, region@, opt_text(auth_token)),
{
    let m = StrMap::new().with("op", Json::str("WorkerConnect")).with(
        "worker_id",
        Json::str(worker_id),
    ).with("region", Json::str(region)).with("proto", Json::u64(PROTOCOL_VERSION));
    match auth_token {
        Some(t) => m.with("auth_token", Json::str(t)).done(),
        None => m.done(),
    }
}

/// A header announces the length of what follows it.
pub proof fn law_header_announces(d: Doc)
    requires
        encode_utf8(json_text(d)).len() <= u32::MAX,
    ensures
        be_value(framed(d).take(4)) == framed(d).len() - 4,
        framed(d).skip(4) == encode_utf8(json_text(d)),
{
    let n = encode_utf8(json_text(d)).len() as int;
    let h = be_bytes(n);
    assert(framed(d).take(4) =~= h);
    assert(framed(d).skip(4) =~= encode_utf8(json_text(d)));
    assert(n == (n / 0x100_0000) * 0x100_0000 + ((n / 0x1_0000) % 0x100) * 0x1_0000 + ((n / 0x100)
        % 0x100) * 0x100 + n % 0x100) by (nonlinear_arith)
        requires
            0 <= n <= 0xffff_ffff,
    ;
    assert((n / 0x100_0000) % 0x100 == n / 0x100_0000) by (nonlinear_arith)
        requires
            0 <= n <= 0xffff_ffff,
    ;
}

}
