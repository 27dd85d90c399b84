//! Start-up settings: the HTTP tuning of the trillium servers and the
//! values read from the environment.
use vstd::prelude::*;
use vstd::utf8::encode_utf8;

use crate::numbers::{parse_std_u16, parse_std_usize, spec_std_parse};

verus! {

/// HTTP settings of a trillium server; `None` keeps trillium's default.
pub struct HttpSettings {
    pub response_buffer_len: Option<usize>,
    pub received_body_max_len: Option<u64>,
    pub received_body_initial_len: Option<usize>,
    pub received_body_max_preallocate: Option<usize>,
    pub copy_loops_per_yield: Option<usize>,
    pub h2_max_frame_size: Option<u32>,
    pub request_buffer_initial_len: Option<usize>,
}

/// 32 MiB.
pub const MAX_BODY_LEN: u64 = 33554432;

/// The settings of the tuned server: 8 KiB response buffer, bodies up to
/// 32 MiB read into a 64 KiB first buffer and preallocated up to 32 MiB,
/// 64 copy loops per yield, 64 KiB HTTP/2 frames, 256-byte first request
/// buffer.
pub fn tuned_http_config() -> (c: HttpSettings)
    ensures
        c.response_buffer_len == Some(8192usize),
        c.received_body_max_len == Some(MAX_BODY_LEN),
        c.received_body_initial_len == Some(65536usize),
        c.received_body_max_preallocate == Some(33554432usize),
        c.copy_loops_per_yield == Some(64usize),
        c.h2_max_frame_size == Some(65536u32),
        c.request_buffer_initial_len == Some(256usize),
{
    HttpSettings {
        response_buffer_len: Some(8192),
        received_body_max_len: Some(MAX_BODY_LEN),
        received_body_initial_len: Some(65536),
        received_body_max_preallocate: Some(33554432),
        copy_loops_per_yield: Some(64),
        h2_max_frame_size: Some(65536),
        request_buffer_initial_len: Some(256),
    }
}

/// The settings of the plain trillium server: bodies up to 32 MiB, the
/// rest trillium's defaults.
pub fn basic_http_config() -> (c: HttpSettings)
    ensures
        c.received_body_max_len == Some(MAX_BODY_LEN),
        c.response_buffer_len is None && c.received_body_initial_len is None
            && c.received_body_max_preallocate is None && c.copy_loops_per_yield is None
            && c.h2_max_frame_size is None && c.request_buffer_initial_len is None,
{
    HttpSettings {
        response_buffer_len: None,
        received_body_max_len: Some(MAX_BODY_LEN),
        received_body_initial_len: None,
        received_body_max_preallocate: None,
        copy_loops_per_yield: None,
        h2_max_frame_size: None,
        request_buffer_initial_len: None,
    }
}

/// The `usize` an environment value holds, or `default` when it is unset
/// or not a `usize`.
pub open spec fn usize_setting(v: Option<Seq<char>>, default: int) -> int {
    match v {
        Some(s) => match spec_std_parse(encode_utf8(s), false, 0, usize::MAX as int) {
            Some(n) => n,
            None => default,
        },
        None => default,
    }
}

/// The `u16` an environment value holds, or `default`.
pub open spec fn u16_setting(v: Option<Seq<char>>, default: int) -> int {
    match v {
        Some(s) => match spec_std_parse(encode_utf8(s), false, 0, u16::MAX as int) {
            Some(n) => n,
            None => default,
        },
        None => default,
    }
}

pub open spec fn env_view(v: Option<&str>) -> Option<Seq<char>> {
    match v {
        Some(s) => Some(s@),
        None => None,
    }
}

/// An environment value read as `usize`, `default` when unset or invalid.
pub fn usize_or(v: Option<&str>, default: usize) -> (r: usize)
    ensures
        r as int == usize_setting(env_view(v), default as int),
{
    match v {
        Some(s) => match parse_std_usize(s.as_bytes()) {
            Some(n) => n,
            None => default,
        },
        None => default,
    }
}

/// An environment value read as `u16` (a port), `default` when unset or
/// invalid.
pub fn u16_or(v: Option<&str>, default: u16) -> (r: u16)
    ensures
        r as int == u16_setting(env_view(v), default as int),
{
    match v {
        Some(s) => match parse_std_u16(s.as_bytes()) {
            Some(n) => n,
            None => default,
        },
        None => default,
    }
}

/// Port of the HTTP/1.1 server (`PORT`), 8080 by default.
pub const DEFAULT_PORT: u16 = 8080;

/// Port of the TLS listeners (`TLS_PORT`, `PROXY_PORT`), 8443 by default.
pub const DEFAULT_TLS_PORT: u16 = 8443;

/// Database connections in all (`DATABASE_MAX_CONN`), 256 by default.
pub const DEFAULT_MAX_CONN: usize = 256;

/// The number of workers: `WORKERS` when it is a `usize`, else the number
/// of CPUs, and at least 1.
pub fn worker_count(v: Option<&str>, cpus: usize) -> (r: usize)
    ensures
        r as int == if usize_setting(env_view(v), cpus as int) < 1 {
            1
        } else {
            usize_setting(env_view(v), cpus as int)
        },
{
    let n = usize_or(v, cpus);
    if n < 1 {
        1
    } else {
        n
    }
}

/// Each worker's share of the database connections: the total divided
/// among the workers (at least one), and never fewer than 2.
pub fn pool_size_per_worker(total: usize, workers: usize) -> (r: usize)
    ensures
        r as int == if total as int / (if workers < 1 {
            1int
        } else {
            workers as int
        }) < 2 {
            2
        } else {
            total as int / (if workers < 1 {
                1int
            } else {
                workers as int
            })
        },
{
    let w = if workers < 1 {
        1
    } else {
        workers
    };
    let share = total / w;
    if share < 2 {
        2
    } else {
        share
    }
}

/// Whether HTTP/3 is enabled: `PROXY_H3` is set, non-empty and not `0`
/// (compared as the bytes of the value).
pub fn h3_enabled(v: Option<&str>) -> (r: bool)
    ensures
        r == match v {
            Some(s) => encode_utf8(s@).len() > 0 && encode_utf8(s@) != seq![48u8],
            None => false,
        },
{
    match v {
        Some(s) => {
            let b = s.as_bytes();
            if b.len() == 0 {
                false
            } else if b.len() == 1 && b[0] == 48u8 {
                assert(b@ =~= seq![48u8]);
                false
            } else {
                assert(b@ != seq![48u8]) by {
                    if b@.len() == 1 {
                        assert(b@[0] != 48u8);
                    }
                }
                true
            }
        },
        None => false,
    }
}

/// The listeners a worker of the tuned server opens.
pub struct ListenerPlan {
    /// HTTP/1.1 over TLS on 8081.
    pub tls_h1: bool,
    /// HTTP/1.1 and HTTP/2 over TLS on the TLS port.
    pub tls: bool,
    /// HTTP/3 over QUIC on the TLS port.
    pub quic: bool,
    /// Whether to warn that only the cleartext port is listening.
    pub warn_no_tls: bool,
}

/// Beside the cleartext listener that every worker opens: the TLS listeners
/// when both a certificate and a key were read, QUIC only on the QUIC
/// worker, and the warning about a missing certificate only from worker 0.
pub fn listener_plan(has_cert: bool, has_key: bool, is_quic_worker: bool, idx: usize) -> (p: ListenerPlan)
    ensures
        p.tls_h1 == (has_cert && has_key),
        p.tls == (has_cert && has_key),
        p.quic == (has_cert && has_key && is_quic_worker),
        p.warn_no_tls == (!(has_cert && has_key) && idx == 0),
{
    let tls = has_cert && has_key;
    ListenerPlan { tls_h1: tls, tls, quic: tls && is_quic_worker, warn_no_tls: !tls && idx == 0 }
}

} // verus!
