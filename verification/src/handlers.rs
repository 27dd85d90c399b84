//! What the endpoints of the framework servers answer: `/pipeline`,
//! `/baseline11`, `/baseline2`, `/upload`, `/json/:count` and `/ws`.
//! The reading of request bodies and sockets is left to the caller, which
//! hands in what it read.
use vstd::prelude::*;

use crate::numbers::{decimal, parse_std_usize, push_digits, spec_decimal, spec_digits, spec_std_parse, wrap_i64};
use crate::query_text::{query_text, tame_query};
use crate::query::{
    entry_str, entry_values, parse_query, read_query, query_get_str, str_i64, str_to_i64,
    sum_of_ints, sum_query_values,
};
use crate::response::{plain_text, status_only, Response, TEXT_PLAIN, CONTENT_TYPE};
use crate::state::Item;
use crate::h1::ascii;
use vstd::utf8::encode_utf8;

verus! {

// ── str::trim ───────────────────────────────────────────────────────────────

/// A character with the Unicode `White_Space` property (`char::is_whitespace`).
pub open spec fn is_white_space(c: char) -> bool {
    ('\u{9}' <= c <= '\u{d}') || c == ' ' || c == '\u{85}' || c == '\u{a0}' || c == '\u{1680}'
        || ('\u{2000}' <= c <= '\u{200a}') || c == '\u{2028}' || c == '\u{2029}' || c
        == '\u{202f}' || c == '\u{205f}' || c == '\u{3000}'
}

pub open spec fn trim_ws_start(s: Seq<char>) -> Seq<char>
    decreases s.len(),
{
    if s.len() > 0 && is_white_space(s[0]) {
        trim_ws_start(s.drop_first())
    } else {
        s
    }
}

pub open spec fn trim_ws_end(s: Seq<char>) -> Seq<char>
    decreases s.len(),
{
    if s.len() > 0 && is_white_space(s.last()) {
        trim_ws_end(s.drop_last())
    } else {
        s
    }
}

/// `s` without leading and trailing white space.
pub open spec fn spec_str_trim(s: Seq<char>) -> Seq<char> {
    trim_ws_end(trim_ws_start(s))
}

/// `str::trim`: the string without leading and trailing characters that
/// have the Unicode `White_Space` property.
#[verifier::external_body]
fn str_trim(s: &str) -> (r: &str)
    ensures
        r@ == spec_str_trim(s@),
{
    s.trim()
}

// ── /pipeline and the baseline endpoints ────────────────────────────────────

/// `/pipeline`: `ok` as plain text.
pub fn pipeline() -> (r: Response)
    ensures
        r.status == 200,
        r.header_seq() == seq![(CONTENT_TYPE@, TEXT_PLAIN@)],
        r.body@ == ascii("ok"@),
{
    proof {
        reveal_strlit("ok");
    }
    let mut body: Vec<u8> = Vec::new();
    body.push(111u8);
    body.push(107u8);
    assert(body@ =~= ascii("ok"@));
    plain_text(body)
}

/// The sum of the integer query values of `querystring`, wrapping at the
/// `i64` bounds; a query string that `querystrong` cannot parse safely
/// counts as one without values (see `read_query`).
pub open spec fn query_sum(querystring: Seq<char>) -> int {
    wrap_i64(sum_of_ints(entry_values(read_query(querystring))))
}

/// `GET /baseline2` (and `GET /baseline11`): the sum of the query values
/// that are integers, as plain text.
pub fn baseline_get(querystring: &str) -> (r: Response)
    ensures
        r.status == 200,
        r.header_seq() == seq![(CONTENT_TYPE@, TEXT_PLAIN@)],
        r.body@ == spec_decimal(query_sum(querystring@)),
{
    let sum = sum_query_values(querystring);
    plain_text(decimal(sum))
}

/// What the request body adds to the sum: its value when, trimmed of white
/// space, it reads as an `i64`; nothing otherwise or when it could not be
/// read as text.
pub open spec fn body_term(body: Option<Seq<char>>) -> int {
    match body {
        Some(b) => match str_i64(spec_str_trim(b)) {
            Some(n) => n,
            None => 0,
        },
        None => 0,
    }
}

/// `POST /baseline11`: the query sum plus the body when it is an integer,
/// as plain text. `body` is the request body read as text (`None` when it
/// could not be).
pub fn baseline_post(querystring: &str, body: Option<&str>) -> (r: Response)
    ensures
        r.status == 200,
        r.header_seq() == seq![(CONTENT_TYPE@, TEXT_PLAIN@)],
        r.body@ == spec_decimal(
            wrap_i64(
                query_sum(querystring@) + body_term(
                    match body {
                        Some(b) => Some(b@),
                        None => None,
                    },
                ),
            ),
        ),
{
    let mut sum = sum_query_values(querystring);
    let ghost q = query_sum(querystring@);
    proof {
        crate::numbers::lemma_wrap_range(sum_of_ints(entry_values(read_query(querystring@))));
    }
    match body {
        Some(b) => {
            let t = str_trim(b);
            match str_to_i64(t) {
                Some(n) => {
                    proof {
                        crate::numbers::lemma_wrapping_add_is_wrap(sum, n);
                        crate::numbers::lemma_wrap_id(n as int);
                        crate::numbers::lemma_wrap_add(
                            sum_of_ints(entry_values(read_query(querystring@))),
                            n as int,
                        );
                        crate::numbers::lemma_wrap_add(q, n as int);
                        crate::numbers::lemma_wrap_id(q);
                    }
                    sum = sum.wrapping_add(n);
                },
                None => {
                    proof {
                        crate::numbers::lemma_wrap_id(q);
                    }
                },
            }
        },
        None => {
            proof {
                crate::numbers::lemma_wrap_id(q);
            }
        },
    }
    plain_text(decimal(sum))
}

/// `GET` or `POST /baseline11`: a POST adds its body to the query sum.
pub fn baseline_any(is_post: bool, querystring: &str, body: Option<&str>) -> (r: Response)
    ensures
        r.status == 200,
        r.header_seq() == seq![(CONTENT_TYPE@, TEXT_PLAIN@)],
        is_post ==> r.body@ == spec_decimal(
            wrap_i64(
                query_sum(querystring@) + body_term(
                    match body {
                        Some(b) => Some(b@),
                        None => None,
                    },
                ),
            ),
        ),
        !is_post ==> r.body@ == spec_decimal(query_sum(querystring@)),
{
    if is_post {
        baseline_post(querystring, body)
    } else {
        baseline_get(querystring)
    }
}

// ── /upload ─────────────────────────────────────────────────────────────────

/// One read from a request body.
pub enum BodyRead {
    /// `n` bytes arrived.
    Data(usize),
    /// The body ended.
    End,
    /// Reading failed.
    Failed,
}

/// The running byte count of an upload.
pub struct UploadTally {
    pub total: u64,
    pub errored: bool,
    pub finished: bool,
}

impl UploadTally {
    /// Nothing read yet.
    pub fn new() -> (t: UploadTally)
        ensures
            t.total == 0 && !t.errored && !t.finished,
    {
        UploadTally { total: 0, errored: false, finished: false }
    }

    /// Takes one read into account: data adds to the count (wrapping at the
    /// `u64` bound), the end or a failure finishes the upload.
    pub fn absorb(&mut self, read: BodyRead)
        requires
            !old(self).finished,
        ensures
            match read {
                BodyRead::Data(n) => final(self).total == vstd::wrapping::u64_specs::wrapping_add(
                    old(self).total,
                    n as u64,
                ) && final(self).errored == old(self).errored && !final(self).finished,
                BodyRead::End => final(self).total == old(self).total && final(self).errored
                    == old(self).errored && final(self).finished,
                BodyRead::Failed => final(self).total == old(self).total && final(self).errored
                    && final(self).finished,
            },
    {
        match read {
            BodyRead::Data(n) => {
                self.total = self.total.wrapping_add(n as u64);
            },
            BodyRead::End => {
                self.finished = true;
            },
            BodyRead::Failed => {
                self.errored = true;
                self.finished = true;
            },
        }
    }
}

/// `POST /upload`: `400 Bad Request` when reading the body failed,
/// otherwise the number of bytes received as plain text.
pub fn upload(tally: &UploadTally) -> (r: Response)
    ensures
        tally.errored ==> r.status == 400 && r.header_seq().len() == 0 && r.body@.len() == 0,
        !tally.errored ==> r.status == 200 && r.header_seq() == seq![(CONTENT_TYPE@, TEXT_PLAIN@)]
            && r.body@ == spec_digits(tally.total as nat),
{
    if tally.errored {
        status_only(400)
    } else {
        let mut body: Vec<u8> = Vec::new();
        push_digits(&mut body, tally.total);
        assert(body@ =~= spec_digits(tally.total as nat));
        plain_text(body)
    }
}

// ── /json/:count ────────────────────────────────────────────────────────────

/// What `/json/:count` lists: the first `count` items of the dataset, each
/// with its `total`.
pub struct JsonList {
    pub count: usize,
    pub totals: Vec<i64>,
}

/// The number of items asked for: the route parameter read as `usize`,
/// 0 when absent or unreadable.
pub open spec fn count_asked(param: Option<Seq<char>>) -> int {
    match param {
        Some(p) => match spec_std_parse(encode_utf8(p), false, 0, usize::MAX as int) {
            Some(n) => n,
            None => 0,
        },
        None => 0,
    }
}

/// The multiplier: the `m` query parameter read as `i64`, 1 when absent or
/// unreadable.
pub open spec fn multiplier(querystring: Seq<char>) -> int {
    match entry_str(read_query(querystring), "m"@) {
        Some(s) => match str_i64(s) {
            Some(v) => v,
            None => 1,
        },
        None => 1,
    }
}

pub open spec fn opt_view(p: Option<&str>) -> Option<Seq<char>> {
    match p {
        Some(s) => Some(s@),
        None => None,
    }
}

/// `GET /json/:count?m=M`: the first `count` items of `dataset` (all of
/// them when there are fewer), each with total = price × quantity × M,
/// wrapping at the `i64` bounds.
pub fn json_handler(count_param: Option<&str>, querystring: &str, dataset: &[Item]) -> (r: JsonList)
    ensures
        r.count as int == if count_asked(opt_view(count_param)) <= dataset@.len() {
            count_asked(opt_view(count_param))
        } else {
            dataset@.len() as int
        },
        r.totals@.len() == r.count,
        forall|i: int|
            0 <= i < r.count ==> #[trigger] r.totals@[i] as int == wrap_i64(
                dataset@[i].price * dataset@[i].quantity * multiplier(querystring@),
            ),
{
    let count: usize = match count_param {
        Some(p) => match parse_std_usize(p.as_bytes()) {
            Some(n) => n,
            None => 0,
        },
        None => 0,
    };
    let tamed = tame_query(querystring);
    let qs = parse_query(query_text(querystring, &tamed));
    proof {
        reveal_strlit("m");
    }
    let m: i64 = match query_get_str(&qs, "m") {
        Some(s) => match str_to_i64(s) {
            Some(v) => v,
            None => 1,
        },
        None => 1,
    };
    let take = if count <= dataset.len() {
        count
    } else {
        dataset.len()
    };
    let mut totals: Vec<i64> = Vec::new();
    let mut i: usize = 0;
    while i < take
        invariant
            take <= dataset@.len(),
            i <= take,
            totals@.len() == i,
            m as int == multiplier(querystring@),
            forall|j: int|
                0 <= j < i ==> #[trigger] totals@[j] as int == wrap_i64(
                    dataset@[j].price * dataset@[j].quantity * multiplier(querystring@),
                ),
        decreases take - i,
    {
        let item = &dataset[i];
        let pq = (item.price as i64).wrapping_mul(item.quantity as i64);
        let t = pq.wrapping_mul(m);
        proof {
            crate::numbers::lemma_wrapping_mul_is_wrap(item.price as i64, item.quantity as i64);
            crate::numbers::lemma_wrapping_mul_is_wrap(pq, m);
            crate::numbers::lemma_wrap_mul_add(item.price * item.quantity, m as int, 0);
        }
        totals.push(t);
        i = i + 1;
    }
    JsonList { count: take, totals }
}

// ── /ws ─────────────────────────────────────────────────────────────────────

/// A message received on the echo websocket.
pub enum WsMessage {
    Text(String),
    Binary(Vec<u8>),
    Ping,
    Pong,
    Frame,
    Close,
}

/// What the echo loop does next.
pub enum WsAction {
    SendText(String),
    SendBinary(Vec<u8>),
    Skip,
    Stop,
}

/// `/ws`: echoes text and binary messages, ignores control frames, and
/// stops on `Close` or when the stream ends or fails (`None`).
pub fn ws_echo(msg: Option<WsMessage>) -> (a: WsAction)
    ensures
        match msg {
            Some(WsMessage::Text(t)) => a matches WsAction::SendText(u) && u@ == t@,
            Some(WsMessage::Binary(b)) => a matches WsAction::SendBinary(c) && c@ == b@,
            Some(WsMessage::Ping) | Some(WsMessage::Pong) | Some(WsMessage::Frame) => a is Skip,
            Some(WsMessage::Close) | None => a is Stop,
        },
{
    match msg {
        Some(WsMessage::Text(t)) => WsAction::SendText(t),
        Some(WsMessage::Binary(b)) => WsAction::SendBinary(b),
        Some(WsMessage::Ping) | Some(WsMessage::Pong) | Some(WsMessage::Frame) => WsAction::Skip,
        Some(WsMessage::Close) | None => WsAction::Stop,
    }
}

// ── the request body of /baseline11 ─────────────────────────────────────────

/// The characters of the ASCII bytes `b`.
pub open spec fn ascii_chars(b: Seq<u8>) -> Seq<char> {
    b.map_values(|c: u8| c as char)
}

/// White space before `t` is trimmed away.
proof fn lemma_trim_start_ws(ws: Seq<char>, t: Seq<char>)
    requires
        forall|i: int| 0 <= i < ws.len() ==> is_white_space(#[trigger] ws[i]),
    ensures
        trim_ws_start(ws + t) == trim_ws_start(t),
    decreases ws.len(),
{
    if ws.len() > 0 {
        assert((ws + t).drop_first() =~= ws.drop_first() + t);
        assert(is_white_space(ws[0]));
        lemma_trim_start_ws(ws.drop_first(), t);
    } else {
        assert(ws + t =~= t);
    }
}

/// White space after `t` is trimmed away.
proof fn lemma_trim_end_ws(t: Seq<char>, ws: Seq<char>)
    requires
        forall|i: int| 0 <= i < ws.len() ==> is_white_space(#[trigger] ws[i]),
    ensures
        trim_ws_end(t + ws) == trim_ws_end(t),
    decreases ws.len(),
{
    if ws.len() > 0 {
        assert((t + ws).drop_last() =~= t + ws.drop_last());
        assert(is_white_space(ws[ws.len() - 1]));
        lemma_trim_end_ws(t, ws.drop_last());
    } else {
        assert(t + ws =~= t);
    }
}

/// The bytes `to_string` writes for an `i64` are ASCII, start with `-` or a
/// digit and end with a digit.
proof fn lemma_decimal_shape(v: int)
    requires
        i64::MIN <= v <= i64::MAX,
    ensures
        spec_decimal(v).len() > 0,
        forall|i: int| 0 <= i < spec_decimal(v).len() ==> #[trigger] spec_decimal(v)[i] < 128,
        spec_decimal(v)[0] == 45 || 48 <= spec_decimal(v)[0] <= 57,
        48 <= spec_decimal(v).last() <= 57,
{
    let m: nat = if v < 0 {
        (-v) as nat
    } else {
        v as nat
    };
    crate::numbers::lemma_digits_read_back(m);
    let d = spec_digits(m);
    assert(crate::numbers::is_digit(d[d.len() - 1]));
    assert(crate::numbers::is_digit(d[0]));
    if v < 0 {
        assert(spec_decimal(v) == seq![45u8] + d);
        assert forall|i: int| 0 <= i < spec_decimal(v).len() implies #[trigger] spec_decimal(v)[i]
            < 128 by {
            if i > 0 {
                assert(spec_decimal(v)[i] == d[i - 1]);
                assert(crate::numbers::is_digit(d[i - 1]));
            }
        }
    } else {
        assert forall|i: int| 0 <= i < spec_decimal(v).len() implies #[trigger] spec_decimal(v)[i]
            < 128 by {
            assert(crate::numbers::is_digit(d[i]));
        }
    }
}

/// A body holding an `i64` as `to_string` writes it, with any white space
/// around it, adds exactly that `i64` to the answer of `POST /baseline11`,
/// negative values included.
pub proof fn law_body_adds_its_integer(v: int, before: Seq<char>, after: Seq<char>)
    requires
        i64::MIN <= v <= i64::MAX,
        forall|i: int| 0 <= i < before.len() ==> is_white_space(#[trigger] before[i]),
        forall|i: int| 0 <= i < after.len() ==> is_white_space(#[trigger] after[i]),
    ensures
        body_term(Some(before + ascii_chars(spec_decimal(v)) + after)) == v,
{
    let b = spec_decimal(v);
    let d = ascii_chars(b);
    lemma_decimal_shape(v);
    assert(before + d + after =~= before + (d + after));
    lemma_trim_start_ws(before, d + after);
    assert((d + after)[0] == d[0]);
    assert(!is_white_space(d[0]));
    assert(trim_ws_start(d + after) == d + after);
    lemma_trim_end_ws(d, after);
    assert(d.last() == d[d.len() - 1]);
    assert(!is_white_space(d.last()));
    assert(trim_ws_end(d) == d);
    assert(spec_str_trim(before + d + after) == d);
    assert(vstd::utf8::is_ascii_chars(d)) by {
        assert forall|i: int| 0 <= i < d.len() implies '\0' <= #[trigger] d[i] <= '\u{7f}' by {
            assert(b[i] < 128);
        }
    }
    vstd::utf8::is_ascii_chars_encode_utf8(d);
    assert(encode_utf8(d) =~= b) by {
        assert forall|i: int| 0 <= i < b.len() implies encode_utf8(d)[i] == b[i] by {
            assert(d[i] as u8 == encode_utf8(d)[i]);
            assert(d[i] == b[i] as char);
        }
    }
    crate::numbers::law_decimal_parses_back(v);
}

} // verus!
