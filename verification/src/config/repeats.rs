//! A `server` block names each of its single-valued settings once: a second
//! `port`, `ip`, `default`, timeout, `ssl_cert` or `ssl_keys` is refused.
use vstd::prelude::*;
use crate::config::ServerV;
use crate::strmap::Entries;
use crate::text::spec_parse_u16;
use super::error::{Halt, ParseErrorV};
use super::parse::{
    Step, empty_entries, new_server, spec_arg, spec_seconds, spec_server, spec_server_body,
    spec_server_step,
};
use super::tokenizer::{newline, spec_consume, tok_at};

verus! {

/// The words of the settings a server block may name only once.
pub open spec fn single_setting(t: Seq<char>) -> bool {
    ||| t == "port"@
    ||| t == "ip"@
    ||| t == "default"@
    ||| t == "header_timeout"@
    ||| t == "body_timeout"@
    ||| t == "send_timeout"@
    ||| t == "ssl_cert"@
    ||| t == "ssl_keys"@
}

/// Whether server `s` already has the setting named `t`.
pub open spec fn setting_given(s: ServerV, t: Seq<char>) -> bool {
    if t == "port"@ {
        s.port is Some
    } else if t == "ip"@ {
        s.ip is Some
    } else if t == "default"@ {
        s.is_default
    } else if t == "header_timeout"@ {
        s.header_timeout is Some
    } else if t == "body_timeout"@ {
        s.body_timeout is Some
    } else if t == "send_timeout"@ {
        s.send_timeout is Some
    } else if t == "ssl_cert"@ {
        s.cert_path is Some
    } else {
        s.keys_path is Some
    }
}

/// Whether what follows setting `t` at `p1` reads without error (with the
/// variables `vars` of the block and `gv` of the file).
pub open spec fn setting_reads(d: Seq<u8>, p1: int, t: Seq<char>, vars: Entries, gv: Entries) -> bool {
    let sc = seq![vars, gv];
    if t == "port"@ {
        spec_arg(d, p1, sc) matches Ok((a, p2)) && spec_parse_u16(a) is Ok && spec_consume(
            d,
            p2,
            newline(),
        ) is Ok
    } else if t == "ip"@ {
        spec_arg(d, p1, sc) matches Ok((a, p2)) && spec_consume(d, p2, newline()) is Ok
    } else if t == "default"@ {
        spec_consume(d, p1, newline()) is Ok
    } else if t == "header_timeout"@ || t == "body_timeout"@ || t == "send_timeout"@ {
        spec_seconds(d, p1) is Ok
    } else {
        tok_at(d, p1) is Ok
    }
}

/// The position, server and variables after `n` directives of a server body
/// read from `p`, where each of them goes on; `None` where one stops or the
/// block ends first.
pub open spec fn body_after(d: Seq<u8>, p: int, s: ServerV, vars: Entries, gv: Entries, n: nat) -> Option<
    (int, ServerV, Entries),
>
    decreases n,
{
    if n == 0 {
        Some((p, s, vars))
    } else {
        match spec_server_step(d, p, s, vars, gv) {
            Step::Next((s2, v2), e) => if p < e <= d.len() {
                body_after(d, e, s2, v2, gv, (n - 1) as nat)
            } else {
                None
            },
            _ => None,
        }
    }
}

proof fn reveal_words()
    ensures
        "port"@ != "ip"@, "port"@ != "default"@, "port"@ != "header_timeout"@,
        "port"@ != "body_timeout"@, "port"@ != "send_timeout"@, "port"@ != "ssl_cert"@,
        "port"@ != "ssl_keys"@, "ip"@ != "default"@, "ip"@ != "header_timeout"@,
        "ip"@ != "body_timeout"@, "ip"@ != "send_timeout"@, "ip"@ != "ssl_cert"@,
        "ip"@ != "ssl_keys"@, "default"@ != "header_timeout"@, "default"@ != "body_timeout"@,
        "default"@ != "send_timeout"@, "default"@ != "ssl_cert"@, "default"@ != "ssl_keys"@,
        "header_timeout"@ != "body_timeout"@, "header_timeout"@ != "send_timeout"@,
        "header_timeout"@ != "ssl_cert"@, "header_timeout"@ != "ssl_keys"@,
        "body_timeout"@ != "send_timeout"@, "body_timeout"@ != "ssl_cert"@,
        "body_timeout"@ != "ssl_keys"@, "send_timeout"@ != "ssl_cert"@,
        "send_timeout"@ != "ssl_keys"@, "ssl_cert"@ != "ssl_keys"@, "port"@ != "domain"@,
        "ip"@ != "domain"@, "default"@ != "domain"@, "header_timeout"@ != "domain"@,
        "body_timeout"@ != "domain"@, "send_timeout"@ != "domain"@, "ssl_cert"@ != "domain"@,
        "ssl_keys"@ != "domain"@, "port"@ != "route"@, "ip"@ != "route"@, "default"@ != "route"@,
        "header_timeout"@ != "route"@, "body_timeout"@ != "route"@, "send_timeout"@ != "route"@,
        "ssl_cert"@ != "route"@, "ssl_keys"@ != "route"@,
{
    reveal_strlit("port");
    reveal_strlit("ip");
    reveal_strlit("default");
    reveal_strlit("header_timeout");
    reveal_strlit("body_timeout");
    reveal_strlit("send_timeout");
    reveal_strlit("ssl_cert");
    reveal_strlit("ssl_keys");
    reveal_strlit("domain");
    reveal_strlit("route");
    assert("port"@.len() == 4 && "port"@[0] == 'p');
    assert("ip"@.len() == 2 && "ip"@[0] == 'i');
    assert("default"@.len() == 7 && "default"@[0] == 'd');
    assert("header_timeout"@.len() == 14 && "header_timeout"@[0] == 'h');
    assert("body_timeout"@.len() == 12 && "body_timeout"@[0] == 'b');
    assert("send_timeout"@.len() == 12 && "send_timeout"@[0] == 's');
    assert("ssl_cert"@.len() == 8 && "ssl_cert"@[4] == 'c');
    assert("ssl_keys"@.len() == 8 && "ssl_keys"@[4] == 'k');
    assert("domain"@.len() == 6 && "domain"@[0] == 'd' && "domain"@[1] == 'o');
    assert("route"@.len() == 5 && "route"@[0] == 'r');
    assert("default"@[1] == 'e');
}

/// A directive that goes on keeps every single-valued setting that was
/// given; a setting `t` whose value reads adds it where it was not given,
/// and is refused as a duplicate where it was.
pub proof fn lemma_server_step_settings(
    d: Seq<u8>,
    p: int,
    s: ServerV,
    vars: Entries,
    gv: Entries,
    t: Seq<char>,
)
    requires
        single_setting(t),
    ensures
        spec_server_step(d, p, s, vars, gv) matches Step::Next((s2, _), _) ==> (setting_given(s, t)
            ==> setting_given(s2, t)),
        tok_at(d, p) matches Ok((w, p1)) && w == t && setting_reads(d, p1, t, vars, gv) ==> {
            if setting_given(s, t) {
                spec_server_step(d, p, s, vars, gv) == Step::<(ServerV, Entries)>::Stop(
                    Halt::Error(ParseErrorV::DuplicateField(t)),
                )
            } else {
                spec_server_step(d, p, s, vars, gv) matches Step::Next((s2, _), _) && setting_given(s2, t)
            }
        },
{
    reveal(spec_server_step);
    reveal_words();
}

/// Reading on through directives that go on keeps given settings given;
/// a stop at the directive reached is the body's answer.
pub proof fn lemma_body_after(d: Seq<u8>, p: int, s: ServerV, vars: Entries, gv: Entries, n: nat, t: Seq<char>)
    requires
        single_setting(t),
        body_after(d, p, s, vars, gv, n) is Some,
    ensures
        ({
            let (q, sq, vq) = body_after(d, p, s, vars, gv, n).unwrap();
            &&& setting_given(s, t) ==> setting_given(sq, t)
            &&& spec_server_step(d, q, sq, vq, gv) matches Step::Stop(h) ==> spec_server_body(
                d,
                p,
                s,
                vars,
                gv,
            ) == Err::<(ServerV, int), Halt>(h)
        }),
    decreases n,
{
    if n > 0 {
        lemma_server_step_settings(d, p, s, vars, gv, t);
        match spec_server_step(d, p, s, vars, gv) {
            Step::Next((s2, v2), e) => {
                lemma_body_after(d, e, s2, v2, gv, (n - 1) as nat, t);
            },
            _ => {},
        }
    }
}

/// Where a server block names a single-valued setting `t` twice, each time
/// with a value that reads, and every directive before the second one goes
/// on, the block is refused with `DuplicateField(t)` (`p1` being where its
/// body starts, after the `{`).
pub proof fn law_repeated_server_setting(
    d: Seq<u8>,
    p: int,
    p1: int,
    gv: Entries,
    t: Seq<char>,
    n1: nat,
    n2: nat,
)
    requires
        single_setting(t),
        n1 < n2,
        spec_consume(d, p, "{"@) == Ok::<int, ParseErrorV>(p1),
        ({
            &&& body_after(d, p1, new_server(), empty_entries(), gv, n1) matches Some((q, sq, vq))
                && tok_at(d, q) matches Ok((w, a)) && w == t && setting_reads(d, a, t, vq, gv)
            &&& body_after(d, p1, new_server(), empty_entries(), gv, n2) matches Some((q, sq, vq))
                && tok_at(d, q) matches Ok((w, a)) && w == t && setting_reads(d, a, t, vq, gv)
        }),
    ensures
        spec_server_body(d, p1, new_server(), empty_entries(), gv) == Err::<
            (ServerV, int),
            Halt,
        >(Halt::Error(ParseErrorV::DuplicateField(t))),
        spec_server(d, p, gv) == Err::<(ServerV, int), Halt>(
            Halt::Error(ParseErrorV::DuplicateField(t)),
        ),
{
    let e = empty_entries();
    let (q1, s1, v1) = body_after(d, p1, new_server(), e, gv, n1).unwrap();
    lemma_body_after_split(d, p1, new_server(), e, gv, n1, (n2 - n1) as nat);
    // The first time the setting is read, it is given afterwards.
    lemma_server_step_settings(d, q1, s1, v1, gv, t);
    assert(body_after(d, q1, s1, v1, gv, (n2 - n1) as nat) is Some);
    match spec_server_step(d, q1, s1, v1, gv) {
        Step::Next((s2, v2), e2) => {
            assert(setting_given(s2, t));
            lemma_body_after_split(d, q1, s1, v1, gv, 1, (n2 - n1 - 1) as nat);
            lemma_body_after(d, e2, s2, v2, gv, (n2 - n1 - 1) as nat, t);
            let (q2, sq2, vq2) = body_after(d, e2, s2, v2, gv, (n2 - n1 - 1) as nat).unwrap();
            lemma_server_step_settings(d, q2, sq2, vq2, gv, t);
            lemma_body_after(d, p1, new_server(), e, gv, n2, t);
        },
        _ => {},
    }
}

/// Reading `a + b` directives is reading `a`, then `b` from there.
proof fn lemma_body_after_split(d: Seq<u8>, p: int, s: ServerV, vars: Entries, gv: Entries, a: nat, b: nat)
    ensures
        body_after(d, p, s, vars, gv, a + b) == match body_after(d, p, s, vars, gv, a) {
            Some((q, sq, vq)) => body_after(d, q, sq, vq, gv, b),
            None => None,
        },
    decreases a,
{
    if a > 0 {
        match spec_server_step(d, p, s, vars, gv) {
            Step::Next((s2, v2), e) => {
                if p < e <= d.len() {
                    lemma_body_after_split(d, e, s2, v2, gv, (a - 1) as nat, b);
                    assert((a - 1) as nat + b == (a + b - 1) as nat);
                }
            },
            _ => {},
        }
    }
}

} // verus!
