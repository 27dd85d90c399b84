//! What the database endpoints decide around their queries: `/async-db`,
//! `/crud/items` (list, create) and `/crud/items/:id` (read, update). The
//! caller runs the queries and serializes rows; these functions read the
//! parameters, pick the status, and keep the read cache consistent.
use vstd::prelude::*;
use vstd::utf8::encode_utf8;

use crate::h1::ascii;
use crate::numbers::{parse_std_i32, spec_std_parse, wrap_i64};
use crate::query_text::{query_text, tame_query};
use crate::query::{entry_str, parse_query, read_query, query_get_str, str_i64, str_to_i64};
use crate::response::{json_response, status_only, Response, APPLICATION_JSON, CONTENT_TYPE};
use crate::state::{cache_hit, CrudCache, CRUD_CACHE_TTL};

verus! {

/// The `i64` value of query parameter `key`, or `default` when it is absent
/// or unreadable.
pub open spec fn int_param(querystring: Seq<char>, key: Seq<char>, default: int) -> int {
    match entry_str(read_query(querystring), key) {
        Some(s) => match str_i64(s) {
            Some(v) => v,
            None => default,
        },
        None => default,
    }
}

/// `v` limited to `lo..=hi`.
pub open spec fn clamp(v: int, lo: int, hi: int) -> int {
    if v < lo {
        lo
    } else if v > hi {
        hi
    } else {
        v
    }
}

/// What the caller should do next.
pub enum Step {
    /// Answer with this response.
    Respond(Response),
    /// Run the database work for this item id.
    Proceed(i32),
}

/// A `Content-Type: application/json` response with status `status`.
fn json_status(status: u16, body: Vec<u8>) -> (r: Response)
    ensures
        r.status == status,
        r.header_seq() == seq![(CONTENT_TYPE@, APPLICATION_JSON@)],
        r.body@ == body@,
{
    let mut r = json_response(body);
    r.status = status;
    r
}

// ── /crud/items (list) ──────────────────────────────────────────────────────

/// The parameters of a listing: category, page, page size and row offset.
pub struct CrudListQuery {
    pub category: String,
    pub page: i64,
    pub limit: i64,
    pub offset: i64,
}

/// `GET /crud/items`: `category` (default `electronics`), `page` (default
/// 1, at least 1) and `limit` (default 10, limited to 1..=50); the offset
/// is (page − 1) × limit, wrapping at the `i64` bounds.
pub fn crud_list(querystring: &str) -> (q: CrudListQuery)
    ensures
        q.category@ == match entry_str(read_query(querystring@), "category"@) {
            Some(c) => c,
            None => "electronics"@,
        },
        q.page == if int_param(querystring@, "page"@, 1) < 1 {
            1
        } else {
            int_param(querystring@, "page"@, 1)
        },
        q.limit == clamp(int_param(querystring@, "limit"@, 10), 1, 50),
        q.offset as int == wrap_i64((q.page - 1) * q.limit),
{
    let tamed = tame_query(querystring);
    let qs = parse_query(query_text(querystring, &tamed));
    proof {
        reveal_strlit("category");
        reveal_strlit("page");
        reveal_strlit("limit");
    }
    let category = match query_get_str(&qs, "category") {
        Some(c) => c.to_owned(),
        None => "electronics".to_owned(),
    };
    let raw_page: i64 = match query_get_str(&qs, "page") {
        Some(s) => match str_to_i64(s) {
            Some(v) => v,
            None => 1,
        },
        None => 1,
    };
    let page = if raw_page < 1 {
        1
    } else {
        raw_page
    };
    let raw_limit: i64 = match query_get_str(&qs, "limit") {
        Some(s) => match str_to_i64(s) {
            Some(v) => v,
            None => 10,
        },
        None => 10,
    };
    let limit = if raw_limit < 1 {
        1
    } else if raw_limit > 50 {
        50
    } else {
        raw_limit
    };
    let offset = (page - 1).wrapping_mul(limit);
    proof {
        crate::numbers::lemma_wrapping_mul_is_wrap((page - 1) as i64, limit);
    }
    CrudListQuery { category, page, limit, offset }
}

/// The listing answered when no database is configured:
/// `{"items":[],"total":0,"page":1,"limit":10}`.
pub fn crud_list_without_db() -> (r: Response)
    ensures
        r.status == 200,
        r.header_seq() == seq![(CONTENT_TYPE@, APPLICATION_JSON@)],
        r.body@ == ascii("{\"items\":[],\"total\":0,\"page\":1,\"limit\":10}"@),
{
    proof {
        reveal_strlit("{\"items\":[],\"total\":0,\"page\":1,\"limit\":10}");
    }
    let b = crate::h1::ascii_bytes("{\"items\":[],\"total\":0,\"page\":1,\"limit\":10}");
    json_response(vstd::slice::slice_to_vec(b))
}

/// A page of listed rows as it is serialized.
pub struct Page<T> {
    pub items: Vec<T>,
    pub total: usize,
    pub page: i64,
    pub limit: i64,
}

/// The page for the rows the query returned (`None` when it failed, which
/// lists nothing).
pub fn crud_list_page<T>(rows: Option<Vec<T>>, q: &CrudListQuery) -> (p: Page<T>)
    ensures
        match rows {
            Some(v) => p.items@ == v@,
            None => p.items@.len() == 0,
        },
        p.total == p.items@.len(),
        p.page == q.page,
        p.limit == q.limit,
{
    let items = match rows {
        Some(v) => v,
        None => Vec::new(),
    };
    let total = items.len();
    Page { items, total, page: q.page, limit: q.limit }
}

// ── /crud/items/:id (read) ──────────────────────────────────────────────────

/// The item id of a route parameter, read as `i32`.
pub open spec fn id_param(param: Option<Seq<char>>) -> Option<int> {
    match param {
        Some(p) => spec_std_parse(encode_utf8(p), true, i32::MIN as int, i32::MAX as int),
        None => None,
    }
}

/// A JSON response tagged with `x-cache`.
pub open spec fn cache_tagged(r: Response, tag: Seq<char>) -> bool {
    &&& r.status == 200
    &&& r.header_seq() == seq![(CONTENT_TYPE@, APPLICATION_JSON@), ("x-cache"@, tag)]
}

fn read_param_id(param: Option<&str>) -> (r: Option<i32>)
    ensures
        match r {
            Some(id) => id_param(crate::handlers::opt_view(param)) == Some(id as int),
            None => id_param(crate::handlers::opt_view(param)) is None,
        },
{
    match param {
        Some(p) => parse_std_i32(p.as_bytes()),
        None => None,
    }
}

/// `GET /crud/items/:id`, before the database: `400` for an unreadable id;
/// the cached body, tagged `x-cache: HIT`, while it is fresh at `now`;
/// `404` when no database is configured; otherwise go and fetch the row.
pub fn crud_read(id_param_str: Option<&str>, cache: &CrudCache, now: u64, has_db: bool) -> (s: Step)
    ensures
        match id_param(crate::handlers::opt_view(id_param_str)) {
            None => s matches Step::Respond(r) && r.status == 400 && r.body@.len() == 0,
            Some(id) => match cache_hit(cache.view(), id as i32, now) {
                Some(body) => s matches Step::Respond(r) && cache_tagged(r, "HIT"@) && r.body@
                    == body,
                None => if has_db {
                    s matches Step::Proceed(i) && i == id
                } else {
                    s matches Step::Respond(r) && r.status == 404 && r.body@.len() == 0
                },
            },
        },
{
    let id = match read_param_id(id_param_str) {
        Some(id) => id,
        None => {
            return Step::Respond(status_only(400));
        },
    };
    match cache.lookup(id, now) {
        Some(body) => {
            return Step::Respond(tagged_json(body, "HIT"));
        },
        None => {},
    }
    if !has_db {
        return Step::Respond(status_only(404));
    }
    Step::Proceed(id)
}

fn tagged_json(body: Vec<u8>, tag: &'static str) -> (r: Response)
    ensures
        cache_tagged(r, tag@),
        r.body@ == body@,
{
    let mut headers: Vec<(&'static str, &'static str)> = Vec::new();
    headers.push((CONTENT_TYPE, APPLICATION_JSON));
    headers.push(("x-cache", tag));
    let r = Response { status: 200, headers, body };
    assert(r.header_seq() =~= seq![(CONTENT_TYPE@, APPLICATION_JSON@), ("x-cache"@, tag@)]);
    r
}

/// What looking a row up in the database gave.
pub enum Fetched {
    /// The row, serialized.
    Found(Vec<u8>),
    Missing,
    Failed,
}

/// `GET /crud/items/:id`, after the database: a found row is cached for
/// `CRUD_CACHE_TTL` from `now` and answered tagged `x-cache: MISS`; a
/// missing row is `404`, a failed query `500`.
pub fn crud_read_fetched(cache: &mut CrudCache, id: i32, fetched: Fetched, now: u64) -> (r: Response)
    requires
        now <= u64::MAX - CRUD_CACHE_TTL,
    ensures
        match fetched {
            Fetched::Found(body) => cache_tagged(r, "MISS"@) && r.body@ == body@
                && final(cache).view() == old(cache).view().insert(
                id,
                (body@, (now + CRUD_CACHE_TTL) as u64),
            ),
            Fetched::Missing => r.status == 404 && r.body@.len() == 0 && final(cache).view()
                == old(cache).view(),
            Fetched::Failed => r.status == 500 && r.body@.len() == 0 && final(cache).view()
                == old(cache).view(),
        },
{
    match fetched {
        Fetched::Found(body) => {
            cache.store(id, body.clone(), now);
            tagged_json(body, "MISS")
        },
        Fetched::Missing => status_only(404),
        Fetched::Failed => status_only(500),
    }
}

// ── /crud/items (create) and /crud/items/:id (update) ───────────────────────

/// `POST /crud/items`, before the database: `400` when the body could not
/// be read, `422` when it is not a valid item (`parsed_id` is the id of the
/// parsed item), `503` without a database; otherwise write the item.
pub fn crud_create(body_read: bool, parsed_id: Option<i32>, has_db: bool) -> (s: Step)
    ensures
        if !body_read {
            s matches Step::Respond(r) && r.status == 400 && r.body@.len() == 0
        } else {
            match parsed_id {
                None => s matches Step::Respond(r) && r.status == 422 && r.body@.len() == 0,
                Some(id) => if !has_db {
                    s matches Step::Respond(r) && r.status == 503 && r.body@.len() == 0
                } else {
                    s matches Step::Proceed(i) && i == id
                },
            }
        },
{
    if !body_read {
        return Step::Respond(status_only(400));
    }
    let id = match parsed_id {
        Some(id) => id,
        None => {
            return Step::Respond(status_only(422));
        },
    };
    if !has_db {
        return Step::Respond(status_only(503));
    }
    Step::Proceed(id)
}

/// `POST /crud/items`, after the database: when the write succeeded (the
/// created item serialized in `written`) the cached read of `id` is dropped
/// and the item answered with `201 Created`; a failed write is `500`.
pub fn crud_create_written(cache: &mut CrudCache, id: i32, written: Option<Vec<u8>>) -> (r: Response)
    ensures
        match written {
            Some(body) => r.status == 201 && r.header_seq() == seq![
                (CONTENT_TYPE@, APPLICATION_JSON@),
            ] && r.body@ == body@ && final(cache).view() == old(cache).view().remove(id),
            None => r.status == 500 && r.body@.len() == 0 && final(cache).view() == old(
                cache,
            ).view(),
        },
{
    match written {
        Some(body) => {
            cache.invalidate(id);
            json_status(201, body)
        },
        None => status_only(500),
    }
}

/// `PUT /crud/items/:id`, before the database: `400` for an unreadable id
/// or body, `422` for a body that is not a valid update, `503` without a
/// database; otherwise run the update.
pub fn crud_update(id_param_str: Option<&str>, body_read: bool, body_valid: bool, has_db: bool) -> (s: Step)
    ensures
        match id_param(crate::handlers::opt_view(id_param_str)) {
            None => s matches Step::Respond(r) && r.status == 400 && r.body@.len() == 0,
            Some(id) => if !body_read {
                s matches Step::Respond(r) && r.status == 400 && r.body@.len() == 0
            } else if !body_valid {
                s matches Step::Respond(r) && r.status == 422 && r.body@.len() == 0
            } else if !has_db {
                s matches Step::Respond(r) && r.status == 503 && r.body@.len() == 0
            } else {
                s matches Step::Proceed(i) && i == id
            },
        },
{
    let id = match read_param_id(id_param_str) {
        Some(id) => id,
        None => {
            return Step::Respond(status_only(400));
        },
    };
    if !body_read {
        return Step::Respond(status_only(400));
    }
    if !body_valid {
        return Step::Respond(status_only(422));
    }
    if !has_db {
        return Step::Respond(status_only(503));
    }
    Step::Proceed(id)
}

/// `PUT /crud/items/:id`, after the database: an updated row drops the
/// cached read of `id` and is answered with `200`; no such row is `404`, a
/// failed query `500`.
pub fn crud_update_done(cache: &mut CrudCache, id: i32, updated: Fetched) -> (r: Response)
    ensures
        match updated {
            Fetched::Found(body) => r.status == 200 && r.header_seq() == seq![
                (CONTENT_TYPE@, APPLICATION_JSON@),
            ] && r.body@ == body@ && final(cache).view() == old(cache).view().remove(id),
            Fetched::Missing => r.status == 404 && r.body@.len() == 0 && final(cache).view()
                == old(cache).view(),
            Fetched::Failed => r.status == 500 && r.body@.len() == 0 && final(cache).view()
                == old(cache).view(),
        },
{
    match updated {
        Fetched::Found(body) => {
            cache.invalidate(id);
            json_response(body)
        },
        Fetched::Missing => status_only(404),
        Fetched::Failed => status_only(500),
    }
}

// ── /async-db ───────────────────────────────────────────────────────────────

/// The parameters of `/async-db`: the price range and the row limit.
pub struct AsyncDbQuery {
    pub min: i32,
    pub max: i32,
    pub limit: i64,
}

/// The `i32` value of query parameter `key`, or `default`.
pub open spec fn i32_param(querystring: Seq<char>, key: Seq<char>, default: int) -> int {
    match entry_str(read_query(querystring), key) {
        Some(s) => match spec_std_parse(encode_utf8(s), true, i32::MIN as int, i32::MAX as int) {
            Some(v) => v,
            None => default,
        },
        None => default,
    }
}

/// `GET /async-db`: `min` (default 10), `max` (default 50) and `limit`
/// (default 50, limited to 1..=50).
pub fn async_db(querystring: &str) -> (q: AsyncDbQuery)
    ensures
        q.min == i32_param(querystring@, "min"@, 10),
        q.max == i32_param(querystring@, "max"@, 50),
        q.limit == clamp(int_param(querystring@, "limit"@, 50), 1, 50),
{
    let tamed = tame_query(querystring);
    let qs = parse_query(query_text(querystring, &tamed));
    proof {
        reveal_strlit("min");
        reveal_strlit("max");
        reveal_strlit("limit");
    }
    let min: i32 = match query_get_str(&qs, "min") {
        Some(s) => match parse_std_i32(s.as_bytes()) {
            Some(v) => v,
            None => 10,
        },
        None => 10,
    };
    let max: i32 = match query_get_str(&qs, "max") {
        Some(s) => match parse_std_i32(s.as_bytes()) {
            Some(v) => v,
            None => 50,
        },
        None => 50,
    };
    let raw_limit: i64 = match query_get_str(&qs, "limit") {
        Some(s) => match str_to_i64(s) {
            Some(v) => v,
            None => 50,
        },
        None => 50,
    };
    let limit = if raw_limit < 1 {
        1
    } else if raw_limit > 50 {
        50
    } else {
        raw_limit
    };
    AsyncDbQuery { min, max, limit }
}

/// The empty answer of `/async-db`, given without a database or when the
/// query fails: `{"items":[],"count":0}`.
pub fn async_db_empty() -> (r: Response)
    ensures
        r.status == 200,
        r.header_seq() == seq![(CONTENT_TYPE@, APPLICATION_JSON@)],
        r.body@ == ascii("{\"items\":[],\"count\":0}"@),
{
    proof {
        reveal_strlit("{\"items\":[],\"count\":0}");
    }
    let b = crate::h1::ascii_bytes("{\"items\":[],\"count\":0}");
    json_response(vstd::slice::slice_to_vec(b))
}

/// The rows of `/async-db` as they are serialized, with their count.
pub struct Listing<T> {
    pub items: Vec<T>,
    pub count: usize,
}

/// The rows of a successful `/async-db` query with their count.
pub fn async_db_listing<T>(rows: Vec<T>) -> (l: Listing<T>)
    ensures
        l.items@ == rows@,
        l.count == rows@.len(),
{
    let count = rows.len();
    Listing { items: rows, count }
}

} // verus!
