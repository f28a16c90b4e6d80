//! Writing a request as bytes.
use vstd::prelude::*;
use vstd::utf8::*;
use crate::strmap::{Entries, StrMap};
use crate::text::{push_bytes, push_utf8};
use super::{Request, RequestV};

verus! {

/// One header field: the name, a colon and a space, the value, a line end.
pub open spec fn field_bytes(kv: (Seq<char>, Seq<char>)) -> Seq<u8> {
    encode_utf8(kv.0) + encode_utf8(": "@) + encode_utf8(kv.1) + encode_utf8("\r\n"@)
}

/// The header fields, in the order they are held.
pub open spec fn headers_bytes(h: Entries) -> Seq<u8>
    decreases h.len(),
{
    if h.len() == 0 {
        Seq::empty()
    } else {
        headers_bytes(h.drop_last()) + field_bytes(h.last())
    }
}

/// Appends the header fields of `h`.
pub fn push_headers(out: &mut Vec<u8>, h: &StrMap)
    ensures
        final(out)@ == old(out)@ + headers_bytes(h@),
{
    let mut i: usize = 0;
    while i < h.len()
        invariant
            i <= h@.len(),
            out@ == old(out)@ + headers_bytes(h@.take(i as int)),
        decreases h@.len() - i,
    {
        let (name, value) = h.entry(i);
        push_utf8(out, name.as_str());
        push_utf8(out, ": ");
        push_utf8(out, value.as_str());
        push_utf8(out, "\r\n");
        proof {
            let t = h@.take(i + 1);
            assert(t.drop_last() =~= h@.take(i as int));
            assert(t.last() == h@[i as int]);
        }
        i = i + 1;
    }
    assert(h@.take(i as int) =~= h@);
}

/// The bytes of a request: the method, the URI and the version on the first
/// line (the digit after the dot repeats the major version), the header
/// fields, an empty line and the body.
pub open spec fn request_bytes(q: RequestV) -> Seq<u8> {
    encode_utf8(q.start_line.method) + encode_utf8(" "@) + encode_utf8(q.start_line.uri.full)
        + encode_utf8(" HTTP/"@) + seq![(q.start_line.version.0 + 0x30) as u8]
        + encode_utf8("."@) + seq![(q.start_line.version.0 + 0x30) as u8]
        + encode_utf8("\r\n"@) + headers_bytes(q.headers) + encode_utf8("\r\n"@) + q.body
}

/// Writes a request as bytes.
pub fn write_request(request: &Request) -> (r: Vec<u8>)
    requires
        request.start_line.version.0 <= 207,
    ensures
        r@ == request_bytes(request@),
{
    let mut out: Vec<u8> = Vec::new();
    push_utf8(&mut out, request.start_line.method.as_str());
    push_utf8(&mut out, " ");
    push_utf8(&mut out, request.start_line.uri.full());
    push_utf8(&mut out, " HTTP/");
    out.push(request.start_line.version.0 + 0x30);
    push_utf8(&mut out, ".");
    out.push(request.start_line.version.0 + 0x30);
    push_utf8(&mut out, "\r\n");
    push_headers(&mut out, &request.headers);
    push_utf8(&mut out, "\r\n");
    push_bytes(&mut out, request.body.as_slice());
    assert(out@ =~= request_bytes(request@));
    out
}

} // verus!
