//! The hand-rolled HTTP/1.1 server core: one request at a time is parsed from
//! a buffer (request line, headers, `Content-Length` or chunked body) and
//! answered with a `text/plain` response; `serve_buffered` runs that over
//! every complete, pipelined request in a buffer.
use vstd::prelude::*;

use crate::bytes::{
    bytes_eq,
    find, lemma_find_some, lemma_split_nonempty, lines_crlf, spec_ci_contains, spec_ci_eq,
    spec_find, spec_lines, spec_split, spec_trim, split_bytes, trim, views, ci_contains, ci_eq,
};
use crate::numbers::{
    all_hex_digits, decimal, hex_value, is_hex_digit, parse_hex, parse_i64, parse_usize, push_digits, spec_decimal, spec_digits,
    spec_lenient_int, spec_parse_hex, spec_parse_usize, wrap_i64,
};

verus! {

/// The bytes of an ASCII string literal.
pub open spec fn ascii(s: Seq<char>) -> Seq<u8> {
    s.map_values(|c: char| c as u8)
}

/// The bytes of an ASCII `&str`, without copying.
pub fn ascii_bytes(s: &str) -> (r: &[u8])
    requires
        vstd::string::is_ascii(s),
    ensures
        r@ == ascii(s@),
{
    let r = s.as_bytes();
    proof {
        vstd::string::is_ascii_spec_bytes(s);
        assert(r@ =~= ascii(s@));
    }
    r
}

pub open spec fn crlf() -> Seq<u8> {
    seq![13u8, 10u8]
}

pub open spec fn crlf2() -> Seq<u8> {
    seq![13u8, 10u8, 13u8, 10u8]
}

// ── chunked bodies ──────────────────────────────────────────────────────────

/// Decoding of the chunks that start at `pos` in `b`: the concatenated chunk
/// data and the position just past the terminating zero-size chunk and its
/// final CRLF; `None` while that is not all buffered or a chunk is malformed.
pub open spec fn spec_decode_from(b: Seq<u8>, pos: int) -> Option<(Seq<u8>, int)>
    decreases b.len() - pos,
{
    if pos < 0 || pos > b.len() {
        None
    } else {
        match spec_find(b.skip(pos), crlf()) {
            None => None,
            Some(nl) => match spec_parse_hex(b.subrange(pos, pos + nl)) {
                None => None,
                Some(size) => {
                    let p = pos + nl + 2;
                    if size == 0 {
                        match spec_find(b.skip(p), crlf()) {
                            Some(end) => Some((Seq::<u8>::empty(), p + end + 2)),
                            None => None,
                        }
                    } else if b.len() < p + size + 2 {
                        None
                    } else if b.subrange(p + size, p + size + 2) != crlf() {
                        None
                    } else {
                        proof {
                            lemma_find_some(b.skip(pos), crlf());
                        }
                        match spec_decode_from(b, p + size + 2) {
                            Some((rest, e)) => Some((b.subrange(p, p + size) + rest, e)),
                            None => None,
                        }
                    }
                },
            },
        }
    }
}

/// A successful decoding ends within the buffer, after where it started.
pub proof fn lemma_decode_bound(b: Seq<u8>, pos: int)
    ensures
        spec_decode_from(b, pos) matches Some((_, e)) ==> pos <= e <= b.len(),
    decreases b.len() - pos,
{
    if 0 <= pos <= b.len() {
        if let Some(nl) = spec_find(b.skip(pos), crlf()) {
            lemma_find_some(b.skip(pos), crlf());
            if let Some(size) = spec_parse_hex(b.subrange(pos, pos + nl)) {
                let p = pos + nl + 2;
                if size == 0 {
                    if spec_find(b.skip(p), crlf()) is Some {
                        lemma_find_some(b.skip(p), crlf());
                    }
                } else if b.len() >= p + size + 2 {
                    lemma_decode_bound(b, p + size + 2);
                }
            }
        }
    }
}

/// `body` followed by what a later decoding step yields.
pub open spec fn prepend_decoded(body: Seq<u8>, r: Option<(Seq<u8>, int)>) -> Option<
    (Seq<u8>, int),
> {
    match r {
        Some((rest, e)) => Some((body + rest, e)),
        None => None,
    }
}

/// Decodes a chunked body. Returns the decoded bytes and the number of bytes
/// consumed, or `None` if the terminating 0-chunk isn't fully buffered yet
/// (or a chunk is malformed). A chunk size too large to ever be buffered
/// gives `None` too.
pub fn decode_chunked(buf: &[u8]) -> (r: Option<(Vec<u8>, usize)>)
    ensures
        r is Some <==> spec_decode_from(buf@, 0) is Some,
        r matches Some((body, used)) ==> spec_decode_from(buf@, 0) == Some(
            (body@, used as int),
        ),
{
    let mut body: Vec<u8> = Vec::new();
    let mut pos: usize = 0;
    let ghost b = buf@;
    let crlf_arr: [u8; 2] = [13u8, 10u8];
    let crlf_s: &[u8] = crlf_arr.as_slice();
    assert(crlf_s@ == crlf());
    assert(prepend_decoded(body@, spec_decode_from(b, 0)) =~~= spec_decode_from(b, 0)) by {
        match spec_decode_from(b, 0) {
            Some((rest, e)) => {
                assert(body@ + rest =~= rest);
            },
            None => {},
        }
    }
    loop
        invariant
            b == buf@,
            crlf_s@ == crlf(),
            0 <= pos <= b.len(),
            spec_decode_from(b, 0) == prepend_decoded(body@, spec_decode_from(b, pos as int)),
        decreases b.len() - pos,
    {
        let rest = &buf[pos..buf.len()];
        assert(rest@ =~= b.skip(pos as int));
        let nl = match find(rest, crlf_s) {
            Some(n) => n,
            None => {
                return None;
            },
        };
        proof {
            lemma_find_some(b.skip(pos as int), crlf());
        }
        let line = &buf[pos..pos + nl];
        assert(line@ =~= b.subrange(pos as int, pos + nl));
        let size = match parse_hex(line) {
            Some(s) => s,
            None => {
                return None;
            },
        };
        let p = pos + nl + 2;
        if size == 0 {
            let tail = &buf[p..buf.len()];
            assert(tail@ =~= b.skip(p as int));
            match find(tail, crlf_s) {
                Some(end) => {
                    proof {
                        lemma_find_some(b.skip(p as int), crlf());
                        assert(body@ + Seq::<u8>::empty() =~= body@);
                    }
                    return Some((body, p + end + 2));
                },
                None => {
                    return None;
                },
            }
        }
        if size > buf.len() - p || buf.len() - p - size < 2 {
            return None;
        }
        let data = &buf[p..p + size];
        assert(data@ =~= b.subrange(p as int, p + size));
        if !(buf[p + size] == 13u8 && buf[p + size + 1] == 10u8) {
            assert(b.subrange(p + size, p + size + 2) != crlf()) by {
                assert(b.subrange(p + size, p + size + 2)[0] == b[p + size]);
                assert(b.subrange(p + size, p + size + 2)[1] == b[p + size + 1]);
            }
            return None;
        }
        assert(b.subrange(p + size, p + size + 2) =~= crlf());
        let ghost old_body = body@;
        body.extend_from_slice(data);
        proof {
            let next = spec_decode_from(b, p + size + 2);
            match next {
                Some((r2, e)) => {
                    assert(old_body + (data@ + r2) =~= body@ + r2);
                },
                None => {},
            }
        }
        pos = p + size + 2;
    }
}

// ── request line and headers ────────────────────────────────────────────────

/// The request target: the second space-separated field of the request
/// line, or empty when there is none.
pub open spec fn spec_target(req_line: Seq<u8>) -> Seq<u8> {
    let fields = spec_split(req_line, 32);
    if fields.len() >= 2 {
        fields[1]
    } else {
        Seq::<u8>::empty()
    }
}

fn request_target<'a>(req_line: &'a [u8]) -> (r: &'a [u8])
    ensures
        r@ == spec_target(req_line@),
{
    let fields = split_bytes(req_line, 32u8);
    if fields.len() >= 2 {
        assert(views(fields@)[1] == fields@[1]@);
        fields[1]
    } else {
        let e = &req_line[0..0];
        assert(e@ =~= Seq::<u8>::empty());
        e
    }
}

/// What the headers say about the body and the connection.
pub struct RequestHead {
    /// The value of the last `Content-Length` header (`None` when it was
    /// absent or its value unreadable).
    pub content_length: Option<usize>,
    /// A `Transfer-Encoding` header mentioned `chunked`.
    pub chunked: bool,
    /// A `Connection: close` header was seen.
    pub close: bool,
}

pub open spec fn no_headers() -> RequestHead {
    RequestHead { content_length: None, chunked: false, close: false }
}

pub open spec fn as_usize_opt(v: Option<nat>) -> Option<usize> {
    match v {
        Some(n) => Some(n as usize),
        None => None,
    }
}

/// The effect of one header line: a line without `:` is ignored; the name
/// is compared without regard to ASCII case and the value is trimmed.
pub open spec fn spec_header_step(h: RequestHead, line: Seq<u8>) -> RequestHead {
    match spec_find(line, seq![58u8]) {
        None => h,
        Some(c) => {
            let name = line.take(c);
            let val = spec_trim(line.skip(c + 1));
            if spec_ci_eq(name, ascii("content-length"@)) {
                RequestHead { content_length: as_usize_opt(spec_parse_usize(val)), ..h }
            } else if spec_ci_eq(name, ascii("transfer-encoding"@)) && spec_ci_contains(
                val,
                ascii("chunked"@),
            ) {
                RequestHead { chunked: true, ..h }
            } else if spec_ci_eq(name, ascii("connection"@)) && spec_ci_eq(val, ascii("close"@)) {
                RequestHead { close: true, ..h }
            } else {
                h
            }
        },
    }
}

/// The header lines taken in order, each one updating what the previous
/// ones established.
pub open spec fn spec_headers(lines: Seq<Seq<u8>>) -> RequestHead
    decreases lines.len(),
{
    if lines.len() == 0 {
        no_headers()
    } else {
        spec_header_step(spec_headers(lines.drop_last()), lines.last())
    }
}

fn header_step(h: RequestHead, line: &[u8]) -> (r: RequestHead)
    ensures
        r == spec_header_step(h, line@),
{
    let colon: [u8; 1] = [58u8];
    assert(colon@ == seq![58u8]);
    let c = match find(line, colon.as_slice()) {
        Some(c) => c,
        None => {
            return h;
        },
    };
    proof {
        lemma_find_some(line@, seq![58u8]);
    }
    let name = &line[0..c];
    assert(name@ =~= line@.take(c as int));
    let ll = line.len();
    let raw = &line[c + 1..ll];
    assert(raw@ =~= line@.skip(c + 1));
    let val = trim(raw);
    proof {
        reveal_strlit("content-length");
        reveal_strlit("transfer-encoding");
        reveal_strlit("chunked");
        reveal_strlit("connection");
        reveal_strlit("close");
    }
    if ci_eq(name, ascii_bytes("content-length")) {
        RequestHead { content_length: parse_usize(val), ..h }
    } else if ci_eq(name, ascii_bytes("transfer-encoding")) && ci_contains(
        val,
        ascii_bytes("chunked"),
    ) {
        RequestHead { chunked: true, ..h }
    } else if ci_eq(name, ascii_bytes("connection")) && ci_eq(val, ascii_bytes("close")) {
        RequestHead { close: true, ..h }
    } else {
        h
    }
}

/// Scans the header lines `lines[1..]` (line 0 is the request line).
fn scan_headers(lines: &Vec<&[u8]>) -> (r: RequestHead)
    requires
        lines@.len() >= 1,
    ensures
        r == spec_headers(views(lines@).drop_first()),
{
    let mut h = RequestHead { content_length: None, chunked: false, close: false };
    let mut i: usize = 1;
    assert(views(lines@).drop_first().take(0) =~= Seq::<Seq<u8>>::empty());
    while i < lines.len()
        invariant
            1 <= i <= lines@.len(),
            h == spec_headers(views(lines@).drop_first().take(i - 1)),
        decreases lines@.len() - i,
    {
        let ghost hs = views(lines@).drop_first();
        assert(hs.take(i as int).drop_last() =~= hs.take(i - 1));
        assert(hs.take(i as int).last() == lines@[i as int]@);
        h = header_step(h, lines[i]);
        i = i + 1;
    }
    assert(views(lines@).drop_first().take(lines@.len() - 1) =~= views(lines@).drop_first());
    h
}

// ── the response ────────────────────────────────────────────────────────────

/// A `200 OK` `text/plain` response carrying `body`.
pub open spec fn spec_http_ok(body: Seq<u8>) -> Seq<u8> {
    ascii("HTTP/1.1 200 OK\r\nContent-Type: text/plain\r\nContent-Length: "@) + spec_digits(
        body.len(),
    ) + ascii("\r\n\r\n"@) + body
}

/// Appends a `200 OK` `text/plain` response carrying `body` to `out`.
pub fn write_resp(out: &mut Vec<u8>, body: &[u8])
    ensures
        final(out)@ == old(out)@ + spec_http_ok(body@),
{
    proof {
        reveal_strlit("HTTP/1.1 200 OK\r\nContent-Type: text/plain\r\nContent-Length: ");
        reveal_strlit("\r\n\r\n");
    }
    let head = ascii_bytes("HTTP/1.1 200 OK\r\nContent-Type: text/plain\r\nContent-Length: ");
    out.extend_from_slice(head);
    let ghost a = out@;
    push_digits(out, body.len() as u64);
    let ghost b = out@;
    out.extend_from_slice(ascii_bytes("\r\n\r\n"));
    let ghost c = out@;
    out.extend_from_slice(body);
    assert(out@ =~= old(out)@ + spec_http_ok(body@));
}

/// The `a` and `b` query parameters after the pairs `kvs`: a pair without
/// `=` is ignored, and a later `a` (or `b`) replaces an earlier one.
pub open spec fn spec_ab_pairs(kvs: Seq<Seq<u8>>) -> (int, int)
    decreases kvs.len(),
{
    if kvs.len() == 0 {
        (0, 0)
    } else {
        let (a, b) = spec_ab_pairs(kvs.drop_last());
        let kv = kvs.last();
        match spec_find(kv, seq![61u8]) {
            None => (a, b),
            Some(eq) => {
                let k = kv.take(eq);
                let v = kv.skip(eq + 1);
                if k == seq![97u8] {
                    (wrap_i64(spec_lenient_int(v)), b)
                } else if k == seq![98u8] {
                    (a, wrap_i64(spec_lenient_int(v)))
                } else {
                    (a, b)
                }
            },
        }
    }
}

/// The `a` and `b` parameters of a query string (`&`-separated pairs).
pub open spec fn spec_parse_ab(query: Seq<u8>) -> (int, int) {
    spec_ab_pairs(spec_split(query, 38))
}

/// Reads the `a` and `b` parameters of a query string; absent ones are 0.
pub fn parse_ab(query: &[u8]) -> (r: (i64, i64))
    ensures
        (r.0 as int, r.1 as int) == spec_parse_ab(query@),
{
    let kvs = split_bytes(query, 38u8);
    let eq_arr: [u8; 1] = [61u8];
    assert(eq_arr@ == seq![61u8]);
    let mut a: i64 = 0;
    let mut b: i64 = 0;
    let mut i: usize = 0;
    assert(views(kvs@).take(0) =~= Seq::<Seq<u8>>::empty());
    while i < kvs.len()
        invariant
            i <= kvs@.len(),
            eq_arr@ == seq![61u8],
            views(kvs@) == spec_split(query@, 38),
            (a as int, b as int) == spec_ab_pairs(views(kvs@).take(i as int)),
        decreases kvs@.len() - i,
    {
        let kv = kvs[i];
        assert(views(kvs@).take(i + 1).drop_last() =~= views(kvs@).take(i as int));
        assert(views(kvs@).take(i + 1).last() == kv@);
        match find(kv, eq_arr.as_slice()) {
            Some(eq) => {
                proof {
                    lemma_find_some(kv@, seq![61u8]);
                }
                let k = &kv[0..eq];
                let kl = kv.len();
                let v = &kv[eq + 1..kl];
                assert(k@ =~= kv@.take(eq as int));
                assert(v@ =~= kv@.skip(eq + 1));
                if k.len() == 1 && k[0] == 97u8 {
                    assert(k@ =~= seq![97u8]);
                    a = parse_i64(v);
                } else if k.len() == 1 && k[0] == 98u8 {
                    assert(k@ =~= seq![98u8]);
                    assert(k@ != seq![97u8]);
                    b = parse_i64(v);
                } else {
                    assert(k@ != seq![97u8] && k@ != seq![98u8]) by {
                        if k@.len() == 1 {
                            assert(k@ =~= seq![k@[0]]);
                        }
                    }
                }
            },
            None => {},
        }
        i = i + 1;
    }
    assert(views(kvs@).take(kvs@.len() as int) =~= views(kvs@));
    (a, b)
}

/// The response to a request for `target` whose body reads as `body_int`:
/// `ok` for the path `/pipeline`, otherwise the sum of the `a` and `b`
/// query parameters and the body (wrapping at the `i64` bounds).
pub open spec fn spec_response(target: Seq<u8>, body_int: int) -> Seq<u8> {
    let q = spec_find(target, seq![63u8]);
    let path = match q {
        Some(i) => target.take(i),
        None => target,
    };
    if path == ascii("/pipeline"@) {
        spec_http_ok(ascii("ok"@))
    } else {
        let query = match q {
            Some(i) => target.skip(i + 1),
            None => Seq::<u8>::empty(),
        };
        let (a, b) = spec_parse_ab(query);
        spec_http_ok(spec_decimal(wrap_i64(a + b + body_int)))
    }
}

/// Appends the response to a request for `target` whose body reads as
/// `body_int`.
pub fn respond(out: &mut Vec<u8>, target: &[u8], body_int: i64)
    ensures
        final(out)@ == old(out)@ + spec_response(target@, body_int as int),
{
    let qm: [u8; 1] = [63u8];
    assert(qm@ == seq![63u8]);
    let q = find(target, qm.as_slice());
    let tl = target.len();
    let path = match q {
        Some(i) => {
            proof {
                lemma_find_some(target@, seq![63u8]);
            }
            &target[0..i]
        },
        None => &target[0..tl],
    };
    proof {
        reveal_strlit("/pipeline");
        reveal_strlit("ok");
        match q {
            Some(i) => {
                assert(path@ =~= target@.take(i as int));
            },
            None => {
                assert(path@ =~= target@);
            },
        }
    }
    if bytes_eq(path, ascii_bytes("/pipeline")) {
        write_resp(out, ascii_bytes("ok"));
    } else {
        let query = match q {
            Some(i) => &target[i + 1..tl],
            None => &target[0..0],
        };
        proof {
            match q {
                Some(i) => {
                    assert(query@ =~= target@.skip(i + 1));
                },
                None => {
                    assert(query@ =~= Seq::<u8>::empty());
                },
            }
        }
        let (a, b) = parse_ab(query);
        let sum = a.wrapping_add(b).wrapping_add(body_int);
        proof {
            crate::numbers::lemma_wrapping_add_is_wrap(a, b);
            crate::numbers::lemma_wrapping_add_is_wrap(a.wrapping_add(b), body_int);
            crate::numbers::lemma_wrap_id(body_int as int);
            crate::numbers::lemma_wrap_add(a + b, body_int as int);
        }
        let s = decimal(sum);
        write_resp(out, s.as_slice());
    }
}

// ── one request ─────────────────────────────────────────────────────────────

/// What parsing one request from the front of a buffer came to.
pub enum Outcome {
    /// The request is not fully buffered yet.
    Incomplete,
    /// The request took `consumed` bytes; the connection stays open unless
    /// it asked for `Connection: close`.
    Complete { consumed: usize, keep_alive: bool },
}

/// The head of the request at the front of `buf`, when its header block is
/// complete: the end of the header block, the target and the headers.
pub open spec fn spec_head(buf: Seq<u8>) -> Option<(int, Seq<u8>, RequestHead)> {
    match spec_find(buf, crlf2()) {
        None => None,
        Some(he) => {
            let lines = spec_lines(buf.take(he));
            Some((he, spec_target(lines[0]), spec_headers(lines.drop_first())))
        },
    }
}

/// The request at the front of `buf`: the bytes it takes, whether the
/// connection stays open after it, and the response it gets; `None` while it
/// is incomplete.
#[verifier::opaque]
pub open spec fn spec_process(buf: Seq<u8>) -> Option<(int, bool, Seq<u8>)> {
    match spec_head(buf) {
        None => None,
        Some((he, target, head)) => {
            let body_start = he + 4;
            if head.chunked {
                match spec_decode_from(buf.skip(body_start), 0) {
                    Some((body, used)) => Some(
                        (
                            body_start + used,
                            !head.close,
                            spec_response(target, wrap_i64(spec_lenient_int(body))),
                        ),
                    ),
                    None => None,
                }
            } else {
                match head.content_length {
                    Some(cl) => if buf.len() < body_start + cl {
                        None
                    } else {
                        Some(
                            (
                                body_start + cl,
                                !head.close,
                                spec_response(
                                    target,
                                    wrap_i64(
                                        spec_lenient_int(buf.subrange(body_start, body_start + cl)),
                                    ),
                                ),
                            ),
                        )
                    },
                    None => Some((body_start, !head.close, spec_response(target, 0))),
                }
            }
        },
    }
}

/// The end of the header block, the target and the headers of the request
/// at the front of `buf`, once its header block is complete.
fn parse_head<'a>(buf: &'a [u8]) -> (r: Option<(usize, &'a [u8], RequestHead)>)
    ensures
        match r {
            None => spec_head(buf@) is None,
            Some((he, target, head)) => spec_head(buf@) == Some((he as int, target@, head))
                && he + 4 <= buf@.len(),
        },
{
    let end_arr: [u8; 4] = [13u8, 10u8, 13u8, 10u8];
    assert(end_arr@ == crlf2());
    let he = match find(buf, end_arr.as_slice()) {
        Some(h) => h,
        None => {
            return None;
        },
    };
    proof {
        lemma_find_some(buf@, crlf2());
    }
    let head_block = &buf[0..he];
    assert(head_block@ =~= buf@.take(he as int));
    let lines = lines_crlf(head_block);
    proof {
        lemma_split_nonempty(buf@.take(he as int), 10);
    }
    let req_line = lines[0];
    assert(req_line@ == spec_lines(buf@.take(he as int))[0]);
    let target = request_target(req_line);
    let head = scan_headers(&lines);
    assert(views(lines@).drop_first() =~= spec_lines(buf@.take(he as int)).drop_first());
    Some((he, target, head))
}

/// Parses one request from `buf` and appends its response to `out`; returns
/// `Incomplete`, leaving `out` as it was, if the request isn't fully
/// buffered yet (as for a declared body too large to ever be buffered).
pub fn process(buf: &[u8], out: &mut Vec<u8>) -> (o: Outcome)
    ensures
        match o {
            Outcome::Incomplete => spec_process(buf@) is None && final(out)@ == old(out)@,
            Outcome::Complete { consumed, keep_alive } => match spec_process(buf@) {
                Some((c, k, resp)) => c == consumed && k == keep_alive && final(out)@ == old(
                    out,
                )@ + resp,
                None => false,
            },
        },
{
    reveal(spec_process);
    let bl = buf.len();
    let (he, target, head) = match parse_head(buf) {
        Some(x) => x,
        None => {
            return Outcome::Incomplete;
        },
    };
    let body_start = he + 4;
    let (body_int, consumed) = if head.chunked {
        let body_bytes = &buf[body_start..bl];
        assert(body_bytes@ =~= buf@.skip(body_start as int));
        proof {
            lemma_decode_bound(buf@.skip(body_start as int), 0);
        }
        match decode_chunked(body_bytes) {
            Some((body, used)) => (parse_i64(body.as_slice()), body_start + used),
            None => {
                return Outcome::Incomplete;
            },
        }
    } else {
        match head.content_length {
            Some(cl) => {
                if bl - body_start < cl {
                    return Outcome::Incomplete;
                }
                let body_bytes = &buf[body_start..body_start + cl];
                assert(body_bytes@ =~= buf@.subrange(body_start as int, body_start + cl));
                (parse_i64(body_bytes), body_start + cl)
            },
            None => {
                proof {
                    crate::numbers::lemma_wrap_id(0);
                }
                (0i64, body_start)
            },
        }
    };
    respond(out, target, body_int);
    Outcome::Complete { consumed, keep_alive: !head.close }
}

// ── a buffer of pipelined requests ──────────────────────────────────────────

/// A complete request takes at least its header block and at most the
/// whole buffer.
pub proof fn lemma_process_bound(buf: Seq<u8>)
    ensures
        spec_process(buf) matches Some((c, _, _)) ==> 4 <= c <= buf.len(),
{
    reveal(spec_process);
    if let Some(he) = spec_find(buf, crlf2()) {
        lemma_find_some(buf, crlf2());
        let body_start = he + 4;
        lemma_decode_bound(buf.skip(body_start), 0);
    }
}

/// Serving every complete request at the front of `buf` in turn: the bytes
/// consumed, whether the connection stays open, and the responses. Serving
/// stops at an incomplete request or after one that closes the connection.
#[verifier::opaque]
pub open spec fn spec_serve(buf: Seq<u8>) -> (int, bool, Seq<u8>)
    decreases buf.len(),
{
    match spec_process(buf) {
        None => (0, true, Seq::<u8>::empty()),
        Some((c, k, resp)) => if !k {
            (c, false, resp)
        } else {
            proof {
                lemma_process_bound(buf);
            }
            let (c2, k2, r2) = spec_serve(buf.skip(c));
            (c + c2, k2, resp + r2)
        },
    }
}

/// The result of serving a buffer of pipelined requests.
pub struct Served {
    /// Bytes taken by the requests that were answered.
    pub consumed: usize,
    /// False once a request asked for `Connection: close`.
    pub keep_alive: bool,
}

/// The outcome of serving a whole buffer, given what serving its first
/// `pos` bytes produced (`added`) and the outcome of serving the rest.
pub open spec fn serve_from(pos: int, added: Seq<u8>, rest: (int, bool, Seq<u8>)) -> (
    int,
    bool,
    Seq<u8>,
) {
    (pos + rest.0, rest.1, added + rest.2)
}

proof fn lemma_serve_halt(rest: Seq<u8>)
    ensures
        spec_process(rest) is None ==> spec_serve(rest) == (0int, true, Seq::<u8>::empty()),
{
    reveal(spec_serve);
}

proof fn lemma_serve_step(buf: Seq<u8>, pos: int, added: Seq<u8>)
    requires
        0 <= pos <= buf.len(),
        spec_process(buf.skip(pos)) is Some,
    ensures
        ({
            let (c, k, resp) = spec_process(buf.skip(pos))->0;
            &&& 4 <= c <= buf.len() - pos
            &&& k ==> serve_from(pos, added, spec_serve(buf.skip(pos))) == serve_from(
                pos + c,
                added + resp,
                spec_serve(buf.skip(pos + c)),
            )
            &&& !k ==> serve_from(pos, added, spec_serve(buf.skip(pos))) == (
                pos + c,
                false,
                added + resp,
            )
        }),
{
    reveal(spec_serve);
    let rest = buf.skip(pos);
    lemma_process_bound(rest);
    let (c, k, resp) = spec_process(rest)->0;
    assert(rest.skip(c) =~= buf.skip(pos + c));
    if k {
        let (c2, k2, r2) = spec_serve(buf.skip(pos + c));
        assert(added + (resp + r2) =~= (added + resp) + r2);
    }
}

/// Answers every complete request at the front of `buf`, appending the
/// responses to `out`, until an incomplete request or a request asking to
/// close the connection.
pub fn serve_buffered(buf: &[u8], out: &mut Vec<u8>) -> (s: Served)
    ensures
        (s.consumed as int, s.keep_alive, final(out)@.skip(old(out)@.len() as int)) == spec_serve(
            buf@,
        ),
        final(out)@.take(old(out)@.len() as int) == old(out)@,
        s.consumed <= buf@.len(),
{
    let ghost out0 = out@;
    let ghost n0 = out0.len() as int;
    let ghost total = spec_serve(buf@);
    let bl = buf.len();
    let mut pos: usize = 0;
    proof {
        assert(buf@.skip(0) =~= buf@);
        assert(out@.skip(n0) =~= Seq::<u8>::empty());
        let t = spec_serve(buf@);
        assert(Seq::<u8>::empty() + t.2 =~= t.2);
    }
    loop
        invariant
            bl == buf@.len(),
            pos <= bl,
            n0 == out0.len(),
            out0 == old(out)@,
            total == spec_serve(buf@),
            out@.take(n0) == out0,
            n0 <= out@.len(),
            total == serve_from(pos as int, out@.skip(n0), spec_serve(buf@.skip(pos as int))),
        decreases bl - pos,
    {
        let rest = &buf[pos..bl];
        assert(rest@ =~= buf@.skip(pos as int));
        proof {
            lemma_serve_halt(rest@);
        }
        let ghost before = out@;
        match process(rest, out) {
            Outcome::Incomplete => {
                assert(out@.skip(n0) + Seq::<u8>::empty() =~= out@.skip(n0));
                return Served { consumed: pos, keep_alive: true };
            },
            Outcome::Complete { consumed, keep_alive } => {
                proof {
                    lemma_serve_step(buf@, pos as int, before.skip(n0));
                    let (c, k, resp) = spec_process(rest@)->0;
                    assert(out@.skip(n0) =~= before.skip(n0) + resp);
                    assert(out@.take(n0) =~= before.take(n0));
                }
                pos = pos + consumed;
                if !keep_alive {
                    return Served { consumed: pos, keep_alive: false };
                }
            },
        }
    }
}

/// Bytes requested from the socket per read.
pub const READ_SIZE: usize = 16384;

/// The most unconsumed bytes a connection may buffer before it is dropped.
pub const MAX_BUF: usize = 1048576;

/// Whether the connection goes on reading after a batch of responses was
/// written: it was not asked to close and its leftover bytes stay within
/// `MAX_BUF`.
pub fn keep_reading(keep_alive: bool, buffered: usize) -> (r: bool)
    ensures
        r == (keep_alive && buffered <= MAX_BUF),
{
    keep_alive && buffered <= MAX_BUF
}

// ── laws ────────────────────────────────────────────────────────────────────

proof fn lemma_find_extend(h: Seq<u8>, n: Seq<u8>, m: Seq<u8>)
    requires
        spec_find(h, n) is Some,
    ensures
        spec_find(h + m, n) == spec_find(h, n),
{
    lemma_find_some(h, n);
    let i = spec_find(h, n)->0;
    let hm = h + m;
    assert(hm.subrange(i, i + n.len()) =~= h.subrange(i, i + n.len()));
    assert forall|j: int| 0 <= j < i implies !#[trigger] crate::bytes::is_match_at(hm, n, j) by {
        assert(!crate::bytes::is_match_at(h, n, j));
        assert(hm.subrange(j, j + n.len()) =~= h.subrange(j, j + n.len()));
    }
    crate::bytes::lemma_find_is(hm, n, i);
}

/// Fragmented reads, for chunked bodies: once the chunks from `pos` are
/// completely buffered, bytes that arrive after them change neither the
/// decoded body nor where the decoding ends.
pub proof fn lemma_decode_extend(b: Seq<u8>, m: Seq<u8>, pos: int)
    requires
        spec_decode_from(b, pos) is Some,
    ensures
        spec_decode_from(b + m, pos) == spec_decode_from(b, pos),
    decreases b.len() - pos,
{
    let bm = b + m;
    let nl = spec_find(b.skip(pos), crlf())->0;
    lemma_find_some(b.skip(pos), crlf());
    assert(bm.skip(pos) =~= b.skip(pos) + m);
    lemma_find_extend(b.skip(pos), crlf(), m);
    assert(bm.subrange(pos, pos + nl) =~= b.subrange(pos, pos + nl));
    let size = spec_parse_hex(b.subrange(pos, pos + nl))->0;
    let p = pos + nl + 2;
    if size == 0 {
        assert(bm.skip(p) =~= b.skip(p) + m);
        lemma_find_extend(b.skip(p), crlf(), m);
    } else {
        assert(bm.subrange(p + size, p + size + 2) =~= b.subrange(p + size, p + size + 2));
        assert(bm.subrange(p, p + size) =~= b.subrange(p, p + size));
        lemma_decode_extend(b, m, p + size + 2);
    }
}

proof fn lemma_head_extend(buf: Seq<u8>, m: Seq<u8>)
    requires
        spec_head(buf) is Some,
    ensures
        spec_head(buf + m) == spec_head(buf),
{
    lemma_find_extend(buf, crlf2(), m);
    let he = spec_find(buf, crlf2())->0;
    lemma_find_some(buf, crlf2());
    assert((buf + m).take(he) =~= buf.take(he));
}

/// Fragmented reads: once a request is completely buffered, bytes that
/// arrive after it change nothing about how it is answered.
pub proof fn law_complete_request_unaffected_by_later_bytes(buf: Seq<u8>, more: Seq<u8>)
    requires
        spec_process(buf) is Some,
    ensures
        spec_process(buf + more) == spec_process(buf),
{
    reveal(spec_process);
    lemma_head_extend(buf, more);
    let (he, target, head) = spec_head(buf)->0;
    let body_start = he + 4;
    lemma_find_some(buf, crlf2());
    if head.chunked {
        assert((buf + more).skip(body_start) =~= buf.skip(body_start) + more);
        lemma_decode_extend(buf.skip(body_start), more, 0);
    } else if let Some(cl) = head.content_length {
        assert((buf + more).subrange(body_start, body_start + cl) =~= buf.subrange(
            body_start,
            body_start + cl,
        ));
    }
}

/// A line of hexadecimal digits ending in CRLF at the front of `b` is found
/// as the chunk-size line and read as its value.
proof fn lemma_size_line(b: Seq<u8>, digits: Seq<u8>)
    requires
        digits.len() > 0,
        all_hex_digits(digits),
        hex_value(digits) <= usize::MAX,
        digits.len() + 2 <= b.len(),
        b.subrange(0, digits.len() as int) == digits,
        b.subrange(digits.len() as int, digits.len() + 2int) == crlf(),
    ensures
        spec_find(b.skip(0), crlf()) == Some(digits.len() as int),
        spec_parse_hex(b.subrange(0, digits.len() as int)) == Some(hex_value(digits)),
{
    let h = digits.len() as int;
    assert(b.skip(0) =~= b);
    assert forall|j: int| 0 <= j < h implies !#[trigger] crate::bytes::is_match_at(b, crlf(), j) by {
        assert(b.subrange(0, h)[j] == b[j]);
        assert(is_hex_digit(digits[j]));
        if j + 2 <= b.len() {
            assert(b.subrange(j, j + 2)[0] == b[j]);
        }
    }
    crate::bytes::lemma_find_is(b, crlf(), h);
    crate::numbers::lemma_hex_prefix(digits, h);
    assert(digits.take(h) =~= digits);
}

/// The last chunk, `0` CRLF CRLF, at `q` ends the decoding just after it
/// with nothing more decoded.
proof fn lemma_last_chunk(b: Seq<u8>, q: int)
    requires
        0 <= q,
        q + 5 <= b.len(),
        b.subrange(q, q + 5) == seq![48u8] + crlf2(),
    ensures
        spec_decode_from(b, q) == Some((Seq::<u8>::empty(), q + 5)),
{
    let tail = b.skip(q);
    assert(tail.subrange(0, 5) =~= b.subrange(q, q + 5));
    assert(tail[0] == 48u8);
    assert(tail.subrange(1, 3) =~= crlf());
    assert(!crate::bytes::is_match_at(tail, crlf(), 0)) by {
        assert(tail.subrange(0, 2)[0] == tail[0]);
    }
    crate::bytes::lemma_find_is(tail, crlf(), 1);
    let zero = b.subrange(q, q + 1);
    assert(zero =~= seq![48u8]);
    crate::numbers::lemma_hex_prefix(zero, 1);
    assert(zero.take(1) =~= zero);
    assert(zero.drop_last() =~= Seq::<u8>::empty());
    assert(hex_value(zero.drop_last()) == 0);
    assert(zero.last() == 48u8);
    assert(hex_value(zero) == 0);
    let after = b.skip(q + 3);
    assert(after.subrange(0, 2) =~= b.subrange(q, q + 5).subrange(3, 5));
    assert((seq![48u8] + crlf2()).subrange(3, 5) =~= crlf());
    assert(after.subrange(0, 2) =~= crlf());
    crate::bytes::lemma_find_is(after, crlf(), 0);
}

/// Chunked framing: a non-empty body sent as one chunk (its length in
/// hexadecimal digits, CRLF, the bytes, CRLF) and closed by the last chunk
/// `0` CRLF CRLF decodes to exactly that body and takes exactly that
/// framing, whatever follows it.
pub proof fn law_single_chunk_decodes(size_hex: Seq<u8>, body: Seq<u8>, rest: Seq<u8>)
    requires
        size_hex.len() > 0,
        all_hex_digits(size_hex),
        hex_value(size_hex) == body.len(),
        0 < body.len() <= usize::MAX,
    ensures
        ({
            let framed = size_hex + crlf() + body + crlf() + seq![48u8] + crlf2();
            spec_decode_from(framed + rest, 0) == Some((body, framed.len() as int))
        }),
{
    let framed = size_hex + crlf() + body + crlf() + seq![48u8] + crlf2();
    let b = framed + rest;
    let h = size_hex.len() as int;
    let n = body.len() as int;
    assert(b.subrange(0, h) =~= size_hex);
    assert(b.subrange(h, h + 2) =~= crlf());
    lemma_size_line(b, size_hex);
    let p = h + 2;
    assert(b.subrange(p, p + n) =~= body);
    assert(b.subrange(p + n, p + n + 2) =~= crlf());
    let q = p + n + 2;
    assert(b.subrange(q, q + 5) =~= seq![48u8] + crlf2());
    lemma_last_chunk(b, q);
    assert(body + Seq::<u8>::empty() =~= body);
}

/// A request with a chunked body sent as one chunk takes the whole buffer
/// and is answered from that body.
#[verifier::spinoff_prover]
proof fn lemma_process_one_chunk(buf: Seq<u8>, size_hex: Seq<u8>, body: Seq<u8>)
    requires
        spec_head(buf) matches Some((he, _, h)) && h.chunked && buf.skip(he + 4) == size_hex
            + crlf() + body + crlf() + seq![48u8] + crlf2(),
        size_hex.len() > 0,
        all_hex_digits(size_hex),
        hex_value(size_hex) == body.len(),
        0 < body.len() <= usize::MAX,
    ensures
        spec_process(buf) == Some(
            (
                buf.len() as int,
                !(spec_head(buf)->0).2.close,
                spec_response((spec_head(buf)->0).1, wrap_i64(spec_lenient_int(body))),
            ),
        ),
{
    let (he, t, h) = spec_head(buf)->0;
    lemma_find_some(buf, crlf2());
    let bs = he + 4;
    assert(spec_decode_from(buf.skip(bs), 0) == Some((body, buf.len() - bs))) by {
        let framed = size_hex + crlf() + body + crlf() + seq![48u8] + crlf2();
        law_single_chunk_decodes(size_hex, body, Seq::<u8>::empty());
        assert(framed + Seq::<u8>::empty() =~= framed);
    }
    reveal(spec_process);
}

/// A request with a `Content-Length` body that ends the buffer takes the
/// whole buffer and is answered from that body.
#[verifier::spinoff_prover]
proof fn lemma_process_sized(buf: Seq<u8>, body: Seq<u8>)
    requires
        spec_head(buf) matches Some((he, _, h)) && !h.chunked && h.content_length == Some(
            body.len() as usize,
        ) && buf.skip(he + 4) == body,
        body.len() <= usize::MAX,
    ensures
        spec_process(buf) == Some(
            (
                buf.len() as int,
                !(spec_head(buf)->0).2.close,
                spec_response((spec_head(buf)->0).1, wrap_i64(spec_lenient_int(body))),
            ),
        ),
{
    let (he, t, h) = spec_head(buf)->0;
    lemma_find_some(buf, crlf2());
    let bs = he + 4;
    assert(buf.subrange(bs, bs + body.len()) =~= buf.skip(bs));
    reveal(spec_process);
}

/// Body framing: a request whose body arrives as one chunk is answered
/// exactly as a request with the same target and the same `Connection`
/// header whose body arrives with a matching `Content-Length`; both take
/// the whole buffer and leave the connection in the same state.
pub proof fn law_chunked_and_sized_bodies_answered_alike(
    chunked_req: Seq<u8>,
    sized_req: Seq<u8>,
    size_hex: Seq<u8>,
    body: Seq<u8>,
)
    requires
        spec_head(chunked_req) matches Some((he, _, h)) && h.chunked && chunked_req.skip(he + 4)
            == size_hex + crlf() + body + crlf() + seq![48u8] + crlf2(),
        spec_head(sized_req) matches Some((he, _, h)) && !h.chunked && h.content_length == Some(
            body.len() as usize,
        ) && sized_req.skip(he + 4) == body,
        (spec_head(chunked_req)->0).1 == (spec_head(sized_req)->0).1,
        (spec_head(chunked_req)->0).2.close == (spec_head(sized_req)->0).2.close,
        size_hex.len() > 0,
        all_hex_digits(size_hex),
        hex_value(size_hex) == body.len(),
        0 < body.len() <= usize::MAX,
    ensures
        spec_process(chunked_req) matches Some((c, _, _)) && c == chunked_req.len(),
        spec_process(sized_req) matches Some((c, _, _)) && c == sized_req.len(),
        (spec_process(chunked_req)->0).1 == (spec_process(sized_req)->0).1,
        (spec_process(chunked_req)->0).2 == (spec_process(sized_req)->0).2,
{
    lemma_process_one_chunk(chunked_req, size_hex, body);
    lemma_process_sized(sized_req, body);
}

/// Pipelining: serving a complete keep-alive request followed by more bytes
/// answers that request first and then serves the rest exactly as if it had
/// arrived alone.
pub proof fn law_pipelined_requests_served_in_order(req: Seq<u8>, rest: Seq<u8>)
    requires
        spec_process(req) matches Some((c, k, _)) && c == req.len() && k,
    ensures
        ({
            let (_c, _k, resp) = spec_process(req)->0;
            let (c2, k2, r2) = spec_serve(rest);
            spec_serve(req + rest) == (req.len() + c2, k2, resp + r2)
        }),
{
    reveal(spec_serve);
    law_complete_request_unaffected_by_later_bytes(req, rest);
    assert((req + rest).skip(req.len() as int) =~= rest);
}

/// `Connection: close`: a complete request that asks to close the
/// connection is answered and ends serving; nothing buffered after it is
/// answered.
pub proof fn law_close_ends_serving(req: Seq<u8>, rest: Seq<u8>)
    requires
        spec_process(req) matches Some((c, k, _)) && c == req.len() && !k,
    ensures
        spec_serve(req + rest) == (req.len() as int, false, (spec_process(req)->0).2),
{
    reveal(spec_serve);
    law_complete_request_unaffected_by_later_bytes(req, rest);
}

/// A search that finds `n` at `i` in `h` finds nothing in a prefix of `h`
/// that ends before that occurrence does, and the same occurrence in a
/// prefix that holds it.
proof fn lemma_find_take(h: Seq<u8>, n: Seq<u8>, m: int)
    requires
        spec_find(h, n) is Some,
        0 <= m <= h.len(),
    ensures
        m < spec_find(h, n)->0 + n.len() ==> spec_find(h.take(m), n) is None,
        m >= spec_find(h, n)->0 + n.len() ==> spec_find(h.take(m), n) == spec_find(h, n),
{
    lemma_find_some(h, n);
    let i = spec_find(h, n)->0;
    let ht = h.take(m);
    if m < i + n.len() {
        assert forall|j: int| !#[trigger] crate::bytes::is_match_at(ht, n, j) by {
            if crate::bytes::is_match_at(ht, n, j) {
                assert(ht.subrange(j, j + n.len()) =~= h.subrange(j, j + n.len()));
                assert(crate::bytes::is_match_at(h, n, j));
            }
        }
        crate::bytes::lemma_find_none(ht, n);
    } else {
        assert(ht.subrange(i, i + n.len()) =~= h.subrange(i, i + n.len()));
        assert forall|j: int| 0 <= j < i implies !#[trigger] crate::bytes::is_match_at(ht, n, j) by {
            assert(!crate::bytes::is_match_at(h, n, j));
            assert(ht.subrange(j, j + n.len()) =~= h.subrange(j, j + n.len()));
        }
        crate::bytes::lemma_find_is(ht, n, i);
    }
}

/// Fragmented reads, for chunked bodies: every prefix of the buffer that
/// stops short of where the decoding of the chunks from `pos` ends does not
/// decode yet.
pub proof fn law_decode_prefix_incomplete(b: Seq<u8>, pos: int, j: int)
    requires
        spec_decode_from(b, pos) matches Some((_, e)) && 0 <= j < e,
    ensures
        spec_decode_from(b.take(j), pos) is None,
    decreases b.len() - pos,
{
    lemma_decode_bound(b, pos);
    let bt = b.take(j);
    if j >= pos {
        lemma_find_some(b.skip(pos), crlf());
        let nl = spec_find(b.skip(pos), crlf())->0;
        assert(bt.skip(pos) =~= b.skip(pos).take(j - pos));
        lemma_find_take(b.skip(pos), crlf(), j - pos);
        if j - pos >= nl + 2 {
            assert(bt.subrange(pos, pos + nl) =~= b.subrange(pos, pos + nl));
            let size = spec_parse_hex(b.subrange(pos, pos + nl))->0;
            let p = pos + nl + 2;
            if size == 0 {
                lemma_find_some(b.skip(p), crlf());
                assert(bt.skip(p) =~= b.skip(p).take(j - p));
                lemma_find_take(b.skip(p), crlf(), j - p);
            } else if j >= p + size + 2 {
                assert(bt.subrange(p + size, p + size + 2) =~= b.subrange(
                    p + size,
                    p + size + 2,
                ));
                assert(bt.subrange(p, p + size) =~= b.subrange(p, p + size));
                law_decode_prefix_incomplete(b, p + size + 2, j);
            }
        }
    }
}

/// Chunked bodies cut exactly: the buffer cut where the decoding of the
/// chunks from `pos` ends decodes to the same body, ending at the same place.
pub proof fn law_decode_exact_cut(b: Seq<u8>, pos: int)
    requires
        spec_decode_from(b, pos) is Some,
    ensures
        spec_decode_from(b.take((spec_decode_from(b, pos)->0).1), pos) == spec_decode_from(b, pos),
    decreases b.len() - pos,
{
    lemma_decode_bound(b, pos);
    let e = (spec_decode_from(b, pos)->0).1;
    let bt = b.take(e);
    lemma_find_some(b.skip(pos), crlf());
    let nl = spec_find(b.skip(pos), crlf())->0;
    let size = spec_parse_hex(b.subrange(pos, pos + nl))->0;
    let p = pos + nl + 2;
    if size == 0 {
        lemma_find_some(b.skip(p), crlf());
        assert(p <= e);
        assert(bt.skip(pos) =~= b.skip(pos).take(e - pos));
        lemma_find_take(b.skip(pos), crlf(), e - pos);
        assert(bt.subrange(pos, pos + nl) =~= b.subrange(pos, pos + nl));
        assert(bt.skip(p) =~= b.skip(p).take(e - p));
        lemma_find_take(b.skip(p), crlf(), e - p);
    } else {
        let q = p + size + 2;
        lemma_decode_bound(b, q);
        assert((spec_decode_from(b, q)->0).1 == e);
        assert(q <= e);
        assert(bt.skip(pos) =~= b.skip(pos).take(e - pos));
        lemma_find_take(b.skip(pos), crlf(), e - pos);
        assert(bt.subrange(pos, pos + nl) =~= b.subrange(pos, pos + nl));
        assert(bt.subrange(p + size, q) =~= b.subrange(p + size, q));
        assert(bt.subrange(p, p + size) =~= b.subrange(p, p + size));
        law_decode_exact_cut(b, q);
    }
}

/// Fragmented reads: every prefix of a buffer that stops short of the end
/// of the complete request at its front is incomplete, so nothing is
/// answered before the whole request has arrived.
pub proof fn law_request_prefix_incomplete(buf: Seq<u8>, j: int)
    requires
        spec_process(buf) matches Some((c, _, _)) && 0 <= j < c,
    ensures
        spec_process(buf.take(j)) is None,
{
    reveal(spec_process);
    lemma_process_bound(buf);
    lemma_find_some(buf, crlf2());
    let he = spec_find(buf, crlf2())->0;
    let bt = buf.take(j);
    lemma_find_take(buf, crlf2(), j);
    if j >= he + 4 {
        assert(bt.take(he) =~= buf.take(he));
        let (_he, target, head) = spec_head(buf)->0;
        let bs = he + 4;
        if head.chunked {
            assert(bt.skip(bs) =~= buf.skip(bs).take(j - bs));
            law_decode_prefix_incomplete(buf.skip(bs), 0, j - bs);
        }
    }
}

/// What makes the request at the front of `buf` complete, and where it ends.
proof fn lemma_process_parts(buf: Seq<u8>)
    requires
        spec_process(buf) is Some,
    ensures
        spec_head(buf) is Some,
        ({
            let (he, _t, h) = spec_head(buf)->0;
            let c = (spec_process(buf)->0).0;
            &&& h.chunked ==> spec_decode_from(buf.skip(he + 4), 0) is Some && c == he + 4 + (
            spec_decode_from(buf.skip(he + 4), 0)->0).1
            &&& !h.chunked && h.content_length is Some ==> c == he + 4
                + h.content_length->0 && c <= buf.len()
            &&& !h.chunked && h.content_length is None ==> c == he + 4
        }),
{
    reveal(spec_process);
}

/// A buffer whose head is complete and whose body is all there holds a
/// complete request.
proof fn lemma_process_complete(buf: Seq<u8>)
    requires
        spec_head(buf) is Some,
        ({
            let (he, _t, h) = spec_head(buf)->0;
            &&& h.chunked ==> spec_decode_from(buf.skip(he + 4), 0) is Some
            &&& !h.chunked && h.content_length is Some ==> he + 4 + h.content_length->0
                <= buf.len()
        }),
    ensures
        spec_process(buf) is Some,
{
    reveal(spec_process);
}

/// Fragmented reads, cut exactly: the buffer cut where the complete request
/// at its front ends is that same request, with the same outcome.
#[verifier::spinoff_prover]
#[verifier::rlimit(40)]
pub proof fn law_request_exact_cut(buf: Seq<u8>)
    requires
        spec_process(buf) is Some,
    ensures
        spec_process(buf.take((spec_process(buf)->0).0)) == spec_process(buf),
{
    lemma_process_bound(buf);
    lemma_process_parts(buf);
    let c = (spec_process(buf)->0).0;
    lemma_find_some(buf, crlf2());
    let he = spec_find(buf, crlf2())->0;
    let bt = buf.take(c);
    let (_he, target, head) = spec_head(buf)->0;
    let bs = he + 4;
    if head.chunked {
        lemma_decode_bound(buf.skip(bs), 0);
    }
    assert(bs <= c);
    lemma_find_take(buf, crlf2(), c);
    assert(bt.take(he) =~= buf.take(he));
    assert(spec_head(bt) == spec_head(buf));
    if head.chunked {
        let d = buf.skip(bs);
        law_decode_exact_cut(d, 0);
        assert(bt.skip(bs) =~= d.take(c - bs));
    }
    lemma_process_complete(bt);
    law_complete_request_unaffected_by_later_bytes(bt, buf.skip(c));
    assert(bt + buf.skip(c) =~= buf);
}

/// Serving a buffer that grows: what serving `buf` answered stays answered
/// first; if the connection stayed open, the rest is served from the
/// unconsumed bytes followed by `more`, and if it was closed, `more`
/// changes nothing.
pub proof fn lemma_serve_extend(buf: Seq<u8>, more: Seq<u8>)
    ensures
        ({
            let (c, k, resp) = spec_serve(buf);
            &&& 0 <= c <= buf.len()
            &&& k ==> spec_serve(buf + more) == serve_from(
                c,
                resp,
                spec_serve(buf.skip(c) + more),
            )
            &&& !k ==> spec_serve(buf + more) == spec_serve(buf)
        }),
    decreases buf.len(),
{
    reveal(spec_serve);
    match spec_process(buf) {
        None => {
            assert(buf.skip(0) =~= buf);
            let t = spec_serve(buf + more);
            assert(Seq::<u8>::empty() + t.2 =~= t.2);
        },
        Some((c1, k1, r1)) => {
            law_complete_request_unaffected_by_later_bytes(buf, more);
            lemma_process_bound(buf);
            if k1 {
                let b1 = buf.skip(c1);
                assert((buf + more).skip(c1) =~= b1 + more);
                lemma_serve_extend(b1, more);
                let (c2, k2, r2) = spec_serve(b1);
                if k2 {
                    assert(b1.skip(c2) =~= buf.skip(c1 + c2));
                    let t = spec_serve(buf.skip(c1 + c2) + more);
                    assert(r1 + (r2 + t.2) =~= (r1 + r2) + t.2);
                }
            }
        },
    }
}

/// What a connection writes when, with `buf` still unconsumed, the bytes of
/// `chunks` arrive one read after another: it serves what is buffered, drops
/// what was served, and takes in the next read, until a request asks to
/// close the connection or the reads end. (The server also drops a
/// connection whose unconsumed bytes exceed `MAX_BUF`; this describes
/// connections that stay within it.)
pub open spec fn spec_connection(buf: Seq<u8>, chunks: Seq<Seq<u8>>) -> Seq<u8>
    decreases chunks.len(),
{
    let (c, k, resp) = spec_serve(buf);
    if !k || chunks.len() == 0 {
        resp
    } else {
        resp + spec_connection(buf.skip(c) + chunks[0], chunks.drop_first())
    }
}

proof fn lemma_connection_serves_all(buf: Seq<u8>, chunks: Seq<Seq<u8>>)
    ensures
        spec_connection(buf, chunks) == spec_serve(buf + chunks.flatten()).2,
    decreases chunks.len(),
{
    let flat = chunks.flatten();
    lemma_serve_extend(buf, flat);
    let (c, k, resp) = spec_serve(buf);
    if chunks.len() == 0 {
        assert(buf + flat =~= buf);
    } else if k {
        let rest = chunks.drop_first();
        assert(buf.skip(c) + flat =~= (buf.skip(c) + chunks[0]) + rest.flatten());
        lemma_connection_serves_all(buf.skip(c) + chunks[0], rest);
    }
}

/// Fragmented reads, for a whole connection: however the incoming bytes are
/// split into reads, the connection writes exactly what serving all of them
/// at once writes.
pub proof fn law_connection_serves_concatenation(chunks: Seq<Seq<u8>>)
    ensures
        spec_connection(Seq::<u8>::empty(), chunks) == spec_serve(chunks.flatten()).2,
{
    lemma_connection_serves_all(Seq::<u8>::empty(), chunks);
    assert(Seq::<u8>::empty() + chunks.flatten() =~= chunks.flatten());
}

/// Fragmented reads: two ways of splitting the same bytes into reads get
/// the same bytes written back.
pub proof fn law_fragmentation_does_not_change_output(a: Seq<Seq<u8>>, b: Seq<Seq<u8>>)
    requires
        a.flatten() == b.flatten(),
    ensures
        spec_connection(Seq::<u8>::empty(), a) == spec_connection(Seq::<u8>::empty(), b),
{
    law_connection_serves_concatenation(a);
    law_connection_serves_concatenation(b);
}

// ── laws on header lines ────────────────────────────────────────────────────

/// The bytes `content-length`.
pub open spec fn content_length_name() -> Seq<u8> {
    seq![99u8, 111, 110, 116, 101, 110, 116, 45, 108, 101, 110, 103, 116, 104]
}

/// The bytes `transfer-encoding`.
pub open spec fn transfer_encoding_name() -> Seq<u8> {
    seq![116u8, 114, 97, 110, 115, 102, 101, 114, 45, 101, 110, 99, 111, 100, 105, 110, 103]
}

/// The bytes `connection`.
pub open spec fn connection_name() -> Seq<u8> {
    seq![99u8, 111, 110, 110, 101, 99, 116, 105, 111, 110]
}

/// The line `name: val` splits at its first colon into `name` and `val`.
proof fn lemma_header_line(name: Seq<u8>, val: Seq<u8>)
    requires
        forall|i: int| 0 <= i < name.len() ==> name[i] != 58,
    ensures
        spec_find(name + seq![58u8] + val, seq![58u8]) == Some(name.len() as int),
        (name + seq![58u8] + val).take(name.len() as int) == name,
        (name + seq![58u8] + val).skip(name.len() + 1int) == val,
{
    let line = name + seq![58u8] + val;
    let c = name.len() as int;
    assert(line.subrange(c, c + 1) =~= seq![58u8]);
    assert forall|j: int| 0 <= j < c implies !#[trigger] crate::bytes::is_match_at(
        line,
        seq![58u8],
        j,
    ) by {
        assert(line.subrange(j, j + 1)[0] == name[j]);
    }
    crate::bytes::lemma_find_is(line, seq![58u8], c);
    assert(line.take(c) =~= name);
    assert(line.skip(c + 1) =~= val);
}

/// Header names are compared without regard to ASCII case: writing any of
/// the letters of a name in upper case gives the same effect.
pub proof fn law_header_name_case_insensitive(
    h: RequestHead,
    name: Seq<u8>,
    name2: Seq<u8>,
    val: Seq<u8>,
)
    requires
        name.len() == name2.len(),
        forall|i: int| 0 <= i < name.len() ==> name[i] != 58,
        forall|i: int|
            0 <= i < name.len() ==> name2[i] == name[i] || (97 <= name[i] <= 122 && name2[i]
                == name[i] - 32),
    ensures
        spec_header_step(h, name + seq![58u8] + val) == spec_header_step(
            h,
            name2 + seq![58u8] + val,
        ),
{
    assert forall|i: int| 0 <= i < name2.len() implies name2[i] != 58 by {
        assert(name2[i] == name[i] || (97 <= name[i] <= 122 && name2[i] == name[i] - 32));
    }
    lemma_header_line(name, val);
    lemma_header_line(name2, val);
    assert forall|i: int| 0 <= i < name.len() implies crate::bytes::lower(name[i])
        == crate::bytes::lower(name2[i]) by {
        assert(name2[i] == name[i] || (97 <= name[i] <= 122 && name2[i] == name[i] - 32));
    }
    assert forall|x: Seq<u8>| spec_ci_eq(name, x) == spec_ci_eq(name2, x) by {
        if spec_ci_eq(name, x) {
            assert forall|i: int| 0 <= i < name2.len() implies crate::bytes::lower(
                #[trigger] name2[i],
            ) == crate::bytes::lower(x[i]) by {
                assert(crate::bytes::lower(name[i]) == crate::bytes::lower(x[i]));
            }
        }
        if spec_ci_eq(name2, x) {
            assert forall|i: int| 0 <= i < name.len() implies crate::bytes::lower(
                #[trigger] name[i],
            ) == crate::bytes::lower(x[i]) by {
                assert(crate::bytes::lower(name2[i]) == crate::bytes::lower(x[i]));
            }
        }
    }
}

/// A `content-length` header sets the content length to the number its
/// value holds (`None` when it holds none that fits in `usize`), and
/// nothing else.
pub proof fn law_content_length_header(h: RequestHead, val: Seq<u8>)
    ensures
        spec_header_step(h, content_length_name() + seq![58u8] + val) == (RequestHead {
            content_length: as_usize_opt(spec_parse_usize(spec_trim(val))),
            chunked: h.chunked,
            close: h.close,
        }),
{
    lemma_header_line(content_length_name(), val);
    reveal_strlit("content-length");
    assert(ascii("content-length"@) =~= content_length_name());
}

/// `content-length: n` sets the content length to `n`, for every `n` that
/// fits in `usize`.
pub proof fn law_content_length_value(h: RequestHead, n: nat)
    requires
        n <= usize::MAX,
    ensures
        spec_header_step(
            h,
            content_length_name() + seq![58u8] + seq![32u8] + spec_digits(n),
        ).content_length == Some(n as usize),
{
    let val = seq![32u8] + spec_digits(n);
    assert(content_length_name() + seq![58u8] + seq![32u8] + spec_digits(n) =~= content_length_name()
        + seq![58u8] + val);
    law_content_length_header(h, val);
    crate::numbers::lemma_digits_read_back(n);
    let d = spec_digits(n);
    assert(val.drop_first() =~= d);
    assert(crate::bytes::spec_trim_start(val) == crate::bytes::spec_trim_start(d));
    assert(!crate::bytes::is_blank(d[0])) by {
        assert(crate::numbers::is_digit(d[0]));
    }
    assert(crate::bytes::spec_trim_start(d) == d);
    assert(!crate::bytes::is_blank(d.last())) by {
        assert(crate::numbers::is_digit(d[d.len() - 1]));
    }
    assert(crate::bytes::spec_trim_end(d) == d);
    assert(spec_trim(val) == d);
    assert(spec_trim(d) == d);
}

/// A `transfer-encoding` header whose value mentions `chunked` (in any
/// case) marks the body chunked, and changes nothing else.
pub proof fn law_transfer_encoding_chunked(h: RequestHead, val: Seq<u8>)
    requires
        spec_ci_contains(spec_trim(val), seq![99u8, 104, 117, 110, 107, 101, 100]),
    ensures
        spec_header_step(h, transfer_encoding_name() + seq![58u8] + val) == (RequestHead {
            content_length: h.content_length,
            chunked: true,
            close: h.close,
        }),
{
    lemma_header_line(transfer_encoding_name(), val);
    reveal_strlit("content-length");
    reveal_strlit("transfer-encoding");
    reveal_strlit("chunked");
    assert(ascii("transfer-encoding"@) =~= transfer_encoding_name());
    assert(ascii("chunked"@) =~= seq![99u8, 104, 117, 110, 107, 101, 100]);
}

/// A `connection` header whose value is `close` (in any case) asks to
/// close the connection, and changes nothing else.
pub proof fn law_connection_close(h: RequestHead, val: Seq<u8>)
    requires
        spec_ci_eq(spec_trim(val), seq![99u8, 108, 111, 115, 101]),
    ensures
        spec_header_step(h, connection_name() + seq![58u8] + val) == (RequestHead {
            content_length: h.content_length,
            chunked: h.chunked,
            close: true,
        }),
{
    lemma_header_line(connection_name(), val);
    reveal_strlit("content-length");
    reveal_strlit("transfer-encoding");
    reveal_strlit("connection");
    reveal_strlit("close");
    assert(ascii("connection"@) =~= connection_name());
    assert(ascii("close"@) =~= seq![99u8, 108, 111, 115, 101]);
}

} // verus!
