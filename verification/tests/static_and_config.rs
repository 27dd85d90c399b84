use httparena::config::{
    listener_plan,
    basic_http_config, h3_enabled, pool_size_per_worker, tuned_http_config, u16_or, usize_or,
    worker_count,
};
use httparena::static_files::{content_type_for, StaticPreload};

#[test]
fn content_types_by_extension() {
    assert_eq!(content_type_for("site.css"), "text/css; charset=utf-8");
    assert_eq!(content_type_for("app.min.mjs"), "text/javascript; charset=utf-8");
    assert_eq!(content_type_for("index.htm"), "text/html; charset=utf-8");
    assert_eq!(content_type_for("logo.jpeg"), "image/jpeg");
    assert_eq!(content_type_for("font.woff2"), "font/woff2");
    assert_eq!(content_type_for("README"), "application/octet-stream");
    assert_eq!(content_type_for("txt"), "text/plain; charset=utf-8");
    assert_eq!(content_type_for("archive.css.gz"), "application/octet-stream");
}

fn preload() -> StaticPreload {
    let mut p = StaticPreload::new();
    p.add_file("app.js.gz", b"GZ".to_vec());
    p.add_file("app.js", b"PLAIN".to_vec());
    p.add_file("app.js.br", b"BR".to_vec());
    p.add_file("only.css.br", b"B".to_vec());
    p
}

#[test]
fn static_files_served_in_accepted_encoding() {
    let p = preload();
    let r = p.run("/app.js", Some("gzip, deflate, br"));
    assert_eq!(r.status, 200);
    assert_eq!(r.body, b"BR");
    assert_eq!(
        r.headers,
        vec![("Content-Type", "text/javascript; charset=utf-8"), ("Content-Encoding", "br")]
    );
    let r = p.run("app.js", Some("gzip"));
    assert_eq!(r.body, b"GZ");
    assert_eq!(r.headers[1], ("Content-Encoding", "gzip"));
    let r = p.run("//app.js", None);
    assert_eq!(r.body, b"PLAIN");
    assert_eq!(r.headers.len(), 1);
    let r = p.run("/only.css", Some("identity"));
    assert_eq!(r.status, 200);
    assert!(r.body.is_empty());
    assert_eq!(p.run("/missing.js", None).status, 404);
}

#[test]
fn load_order_does_not_matter() {
    let mut q = StaticPreload::new();
    q.add_file("app.js.br", b"BR".to_vec());
    q.add_file("only.css.br", b"B".to_vec());
    q.add_file("app.js", b"PLAIN".to_vec());
    q.add_file("app.js.gz", b"GZ".to_vec());
    let p = preload();
    for accept in [None, Some("br"), Some("gzip")] {
        assert_eq!(p.run("/app.js", accept).body, q.run("/app.js", accept).body);
    }
}

#[test]
fn settings_from_the_environment() {
    assert_eq!(worker_count(Some("4"), 16), 4);
    assert_eq!(worker_count(Some("0"), 16), 1);
    assert_eq!(worker_count(Some("many"), 16), 16);
    assert_eq!(worker_count(None, 0), 1);
    assert_eq!(usize_or(Some("512"), 256), 512);
    assert_eq!(usize_or(Some(" 512"), 256), 256);
    assert_eq!(u16_or(Some("9000"), 8443), 9000);
    assert_eq!(u16_or(Some("70000"), 8443), 8443);
    assert_eq!(pool_size_per_worker(256, 16), 16);
    assert_eq!(pool_size_per_worker(256, 0), 256);
    assert_eq!(pool_size_per_worker(10, 8), 2);
    assert!(h3_enabled(Some("1")));
    assert!(h3_enabled(Some("00")));
    assert!(!h3_enabled(Some("0")));
    assert!(!h3_enabled(Some("")));
    assert!(!h3_enabled(None));
}

#[test]
fn http_settings() {
    let t = tuned_http_config();
    assert_eq!(t.response_buffer_len, Some(8192));
    assert_eq!(t.received_body_max_len, Some(32 * 1024 * 1024));
    assert_eq!(t.received_body_initial_len, Some(64 * 1024));
    assert_eq!(t.received_body_max_preallocate, Some(32 * 1024 * 1024));
    assert_eq!(t.copy_loops_per_yield, Some(64));
    assert_eq!(t.h2_max_frame_size, Some(65536));
    assert_eq!(t.request_buffer_initial_len, Some(256));
    let b = basic_http_config();
    assert_eq!(b.received_body_max_len, Some(32 * 1024 * 1024));
    assert!(b.response_buffer_len.is_none());
}

#[test]
fn listeners_follow_the_certificate_and_the_quic_worker() {
    let p = listener_plan(true, true, true, 0);
    assert!(p.tls_h1 && p.tls && p.quic && !p.warn_no_tls);
    let p = listener_plan(true, true, false, 3);
    assert!(p.tls_h1 && p.tls && !p.quic && !p.warn_no_tls);
    let p = listener_plan(true, false, true, 0);
    assert!(!p.tls_h1 && !p.tls && !p.quic && p.warn_no_tls);
    let p = listener_plan(false, false, false, 2);
    assert!(!p.tls_h1 && !p.tls && !p.quic && !p.warn_no_tls);
}
