//! A plain response writer: the status line carries the code and a
//! placeholder reason, header values are bytes, and nothing is added.
use vstd::prelude::*;
use vstd::utf8::*;
use crate::strmap::FieldMap;
use crate::text::{format_int, int_text, push_bytes, push_utf8};

verus! {

pub struct Response {
    pub status: i64,
    pub headers: FieldMap,
    pub body: Vec<u8>,
}

/// One header field: the name, a colon and a space, the value, a line end.
pub open spec fn field_bytes(kv: (Seq<char>, Seq<u8>)) -> Seq<u8> {
    encode_utf8(kv.0) + encode_utf8(": "@) + kv.1 + encode_utf8("\r\n"@)
}

/// The header fields, in the order they are held.
pub open spec fn fields_bytes(h: Seq<(Seq<char>, Seq<u8>)>) -> Seq<u8>
    decreases h.len(),
{
    if h.len() == 0 {
        Seq::empty()
    } else {
        fields_bytes(h.drop_last()) + field_bytes(h.last())
    }
}

/// The bytes of a response: `HTTP/1.1`, the status and the reason `TODO`,
/// the header fields, an empty line and the body.
pub open spec fn response_bytes(status: i64, h: Seq<(Seq<char>, Seq<u8>)>, body: Seq<u8>) -> Seq<u8> {
    encode_utf8("HTTP/1.1 "@) + encode_utf8(int_text(status as int)) + encode_utf8(" TODO\r\n"@)
        + fields_bytes(h) + encode_utf8("\r\n"@) + body
}

/// Writes a response as bytes (see `response_bytes`).
pub fn write_response(response: &Response) -> (r: Vec<u8>)
    ensures
        r@ == response_bytes(response.status, response.headers@, response.body@),
{
    let mut out: Vec<u8> = Vec::new();
    push_utf8(&mut out, "HTTP/1.1 ");
    let status = format_int(response.status as i128);
    push_utf8(&mut out, status.as_str());
    push_utf8(&mut out, " TODO\r\n");
    let h = &response.headers;
    let ghost start = out@;
    let mut i: usize = 0;
    while i < h.len()
        invariant
            i <= h@.len(),
            out@ == start + fields_bytes(h@.take(i as int)),
        decreases h@.len() - i,
    {
        let (name, value) = h.entry(i);
        push_utf8(&mut out, name.as_str());
        push_utf8(&mut out, ": ");
        push_bytes(&mut out, value.as_slice());
        push_utf8(&mut out, "\r\n");
        proof {
            let t = h@.take(i + 1);
            assert(t.drop_last() =~= h@.take(i as int));
            assert(t.last() == h@[i as int]);
        }
        i = i + 1;
    }
    assert(h@.take(i as int) =~= h@);
    push_utf8(&mut out, "\r\n");
    push_bytes(&mut out, response.body.as_slice());
    assert(out@ =~= response_bytes(response.status, response.headers@, response.body@));
    out
}

} // verus!
