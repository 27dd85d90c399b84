use httparena::bytes::{ci_contains, ci_eq, find, lines_crlf, trim};
use httparena::h1::{
    decode_chunked, keep_reading, parse_ab, process, respond, serve_buffered,
    write_resp, Outcome, MAX_BUF,
};
use httparena::numbers::{decimal, parse_hex, parse_i64, parse_std_i32, parse_std_i64, parse_std_u16, parse_std_usize, parse_usize};

fn ok_response(body: &str) -> Vec<u8> {
    format!(
        "HTTP/1.1 200 OK\r\nContent-Type: text/plain\r\nContent-Length: {}\r\n\r\n{}",
        body.len(),
        body
    )
    .into_bytes()
}

fn run_one(req: &[u8]) -> (Outcome, Vec<u8>) {
    let mut out = Vec::new();
    let o = process(req, &mut out);
    (o, out)
}

#[test]
fn pipeline_answers_ok() {
    let req = b"GET /pipeline HTTP/1.1\r\nHost: localhost\r\n\r\n";
    let (o, out) = run_one(req);
    match o {
        Outcome::Complete { consumed, keep_alive } => {
            assert_eq!(consumed, req.len());
            assert!(keep_alive);
        }
        Outcome::Incomplete => panic!("complete request reported incomplete"),
    }
    assert_eq!(out, ok_response("ok"));
}

#[test]
fn baseline_get_adds_query_parameters() {
    let (_, out) = run_one(b"GET /baseline11?a=13&b=29 HTTP/1.1\r\n\r\n");
    assert_eq!(out, ok_response("42"));
}

#[test]
fn baseline_post_adds_content_length_body() {
    let (o, out) = run_one(b"POST /baseline11?a=1&b=2 HTTP/1.1\r\nContent-Length: 3\r\n\r\n-10");
    assert!(matches!(o, Outcome::Complete { consumed: 59, keep_alive: true }));
    assert_eq!(out, ok_response("-7"));
}

#[test]
fn baseline_post_adds_chunked_body() {
    let req = b"POST /baseline11?a=1&b=1 HTTP/1.1\r\nTransfer-Encoding: Chunked\r\n\r\n2\r\n12\r\n1;ext\r\n3\r\n0\r\n\r\n";
    let (o, out) = run_one(req);
    match o {
        Outcome::Complete { consumed, .. } => assert_eq!(consumed, req.len()),
        Outcome::Incomplete => panic!("chunked request reported incomplete"),
    }
    assert_eq!(out, ok_response("125"));
}

#[test]
fn chunked_and_sized_bodies_are_answered_alike() {
    let chunked = b"POST /baseline11?a=5&b=6 HTTP/1.1\r\nTransfer-Encoding: chunked\r\n\r\n3\r\n100\r\n0\r\n\r\n";
    let sized = b"POST /baseline11?a=5&b=6 HTTP/1.1\r\nContent-Length: 3\r\n\r\n100";
    let (o1, out1) = run_one(chunked);
    let (o2, out2) = run_one(sized);
    assert!(matches!(o1, Outcome::Complete { consumed, keep_alive: true } if consumed == chunked.len()));
    assert!(matches!(o2, Outcome::Complete { consumed, keep_alive: true } if consumed == sized.len()));
    assert_eq!(out1, out2);
    assert_eq!(out1, ok_response("111"));
}

#[test]
fn missing_parameters_count_as_zero_and_later_ones_win() {
    let (_, out) = run_one(b"GET /baseline11?a=5&a=7&c=100&b HTTP/1.1\r\n\r\n");
    assert_eq!(out, ok_response("7"));
    let (_, out) = run_one(b"GET /anything HTTP/1.1\r\n\r\n");
    assert_eq!(out, ok_response("0"));
}

#[test]
fn sum_wraps_at_i64_bounds() {
    let (_, out) = run_one(b"GET /baseline11?a=9223372036854775807&b=1 HTTP/1.1\r\n\r\n");
    assert_eq!(out, ok_response("-9223372036854775808"));
}

#[test]
fn connection_close_ends_keep_alive() {
    let (o, _) = run_one(b"GET /pipeline HTTP/1.1\r\nconnection:  CLOSE \r\n\r\n");
    assert!(matches!(o, Outcome::Complete { keep_alive: false, .. }));
}

#[test]
fn incomplete_requests_produce_nothing() {
    for req in [
        &b"GET /pipeline HTTP/1.1\r\nHost: x\r\n"[..],
        &b"POST /baseline11 HTTP/1.1\r\nContent-Length: 10\r\n\r\n12345"[..],
        &b"POST /baseline11 HTTP/1.1\r\nTransfer-Encoding: chunked\r\n\r\n5\r\n12"[..],
        &b"POST /baseline11 HTTP/1.1\r\nTransfer-Encoding: chunked\r\n\r\n0\r\n"[..],
    ] {
        let (o, out) = run_one(req);
        assert!(matches!(o, Outcome::Incomplete));
        assert!(out.is_empty());
    }
}

#[test]
fn fragmented_request_completes_when_last_bytes_arrive() {
    let full = b"POST /baseline11?a=2 HTTP/1.1\r\nContent-Length: 2\r\n\r\n40";
    for cut in 0..full.len() {
        let (o, out) = run_one(&full[..cut]);
        assert!(matches!(o, Outcome::Incomplete), "cut at {cut}");
        assert!(out.is_empty());
    }
    let (o, out) = run_one(full);
    assert!(matches!(o, Outcome::Complete { .. }));
    assert_eq!(out, ok_response("42"));
    let mut longer = full.to_vec();
    longer.extend_from_slice(b"GET /pipe");
    let (o2, out2) = run_one(&longer);
    assert!(matches!(o2, Outcome::Complete { consumed, .. } if consumed == full.len()));
    assert_eq!(out2, out);
}

#[test]
fn pipelined_requests_are_answered_in_order() {
    let mut buf = Vec::new();
    buf.extend_from_slice(b"GET /pipeline HTTP/1.1\r\n\r\n");
    buf.extend_from_slice(b"GET /baseline11?a=1&b=1 HTTP/1.1\r\n\r\n");
    buf.extend_from_slice(b"GET /pipeline HTTP/1.1\r\n\r\n");
    let complete = buf.len();
    buf.extend_from_slice(b"GET /pipel");
    let mut out = b"previous".to_vec();
    let s = serve_buffered(&buf, &mut out);
    assert_eq!(s.consumed, complete);
    assert!(s.keep_alive);
    let mut expected = b"previous".to_vec();
    expected.extend(ok_response("ok"));
    expected.extend(ok_response("2"));
    expected.extend(ok_response("ok"));
    assert_eq!(out, expected);
}

#[test]
fn serving_stops_after_connection_close() {
    let buf = b"GET /pipeline HTTP/1.1\r\nConnection: close\r\n\r\nGET /pipeline HTTP/1.1\r\n\r\n";
    let mut out = Vec::new();
    let s = serve_buffered(buf, &mut out);
    assert_eq!(s.consumed, 45);
    assert!(!s.keep_alive);
    assert_eq!(out, ok_response("ok"));
}

#[test]
fn oversized_bodies_are_incomplete() {
    let req = b"POST /baseline11 HTTP/1.1\r\nTransfer-Encoding: chunked\r\n\r\nffffffffffffffff\r\nxx";
    let (o, out) = run_one(req);
    assert!(matches!(o, Outcome::Incomplete));
    assert!(out.is_empty());
    let mut out = Vec::new();
    let s = serve_buffered(req, &mut out);
    assert_eq!(s.consumed, 0);
    assert!(s.keep_alive);
    assert!(out.is_empty());
    let huge = b"POST /baseline11 HTTP/1.1\r\nContent-Length: 18446744073709551615\r\n\r\n";
    let (o, out) = run_one(huge);
    assert!(matches!(o, Outcome::Incomplete));
    assert!(out.is_empty());
    assert!(decode_chunked(b"ffffffffffffffff\r\nabc").is_none());
    assert!(decode_chunked(b"ffffffffffffffff\r\n").is_none());
}

#[test]
fn every_prefix_of_a_request_is_incomplete() {
    let req = b"POST /baseline11?a=2 HTTP/1.1\r\nTransfer-Encoding: chunked\r\n\r\n2\r\n40\r\n0\r\n\r\n";
    for j in 0..req.len() {
        let (o, out) = run_one(&req[..j]);
        assert!(matches!(o, Outcome::Incomplete), "prefix of length {}", j);
        assert!(out.is_empty());
    }
    let (o, out) = run_one(req);
    assert!(matches!(o, Outcome::Complete { consumed, keep_alive: true } if consumed == req.len()));
    assert_eq!(out, ok_response("42"));
}

#[test]
fn output_does_not_depend_on_read_sizes() {
    let stream: &[u8] = b"GET /pipeline HTTP/1.1\r\n\r\nGET /baseline11?a=1&b=2 HTTP/1.1\r\n\r\nPOST /baseline11 HTTP/1.1\r\nContent-Length: 2\r\n\r\n10GET /pipeline HTTP/1.1\r\nConnection: close\r\n\r\nGET /pipeline HTTP/1.1\r\n\r\n";
    let mut outputs = Vec::new();
    for step in [1usize, 2, 3, 7, 16, stream.len()] {
        let mut buf: Vec<u8> = Vec::new();
        let mut out: Vec<u8> = Vec::new();
        let mut fed = 0;
        loop {
            let served = serve_buffered(&buf, &mut out);
            buf.drain(..served.consumed);
            if !served.keep_alive || fed == stream.len() {
                break;
            }
            let end = std::cmp::min(fed + step, stream.len());
            buf.extend_from_slice(&stream[fed..end]);
            fed = end;
        }
        outputs.push(out);
    }
    let mut expected = ok_response("ok");
    expected.extend(ok_response("3"));
    expected.extend(ok_response("10"));
    expected.extend(ok_response("ok"));
    for o in &outputs {
        assert_eq!(o, &expected);
    }
}

#[test]
fn decode_chunked_reports_body_and_length() {
    let (body, used) = decode_chunked(b"4\r\nWiki\r\n5\r\npedia\r\n0\r\n\r\nrest").unwrap();
    assert_eq!(body, b"Wikipedia");
    assert_eq!(used, 24);
    assert!(decode_chunked(b"4\r\nWikiXX0\r\n\r\n").is_none());
    assert!(decode_chunked(b"zz\r\n").is_none());
}

#[test]
fn single_chunk_decodes_to_its_body() {
    let (body, used) = decode_chunked(b"0B\r\nhello world\r\n0\r\n\r\nGET / HTTP/1.1").unwrap();
    assert_eq!(body, b"hello world");
    assert_eq!(used, 22);
    let (body, used) = decode_chunked(b"a\r\n0123456789\r\n0\r\n\r\n").unwrap();
    assert_eq!(body, b"0123456789");
    assert_eq!(used, 20);
}

#[test]
fn write_resp_frames_the_body() {
    let mut out = Vec::new();
    write_resp(&mut out, b"hello");
    assert_eq!(out, ok_response("hello"));
    let mut out = Vec::new();
    respond(&mut out, b"/pipeline?x=1", 5);
    assert_eq!(out, ok_response("ok"));
    let mut out = Vec::new();
    respond(&mut out, b"/baseline11?b=-3", 10);
    assert_eq!(out, ok_response("7"));
}

#[test]
fn parse_ab_reads_both_parameters() {
    assert_eq!(parse_ab(b"a=3&b=4"), (3, 4));
    assert_eq!(parse_ab(b"b=4&x=1&a= 9 "), (9, 4));
    assert_eq!(parse_ab(b""), (0, 0));
    assert_eq!(parse_ab(b"a&b=x"), (0, 0));
}

#[test]
fn byte_helpers() {
    assert_eq!(find(b"abcabc", b"ca"), Some(2));
    assert_eq!(find(b"abc", b""), None);
    assert_eq!(find(b"ab", b"abc"), None);
    assert_eq!(trim(b" \t x y\t "), b"x y");
    assert_eq!(trim(b"   "), b"");
    assert!(ci_eq(b"Content-LENGTH", b"content-length"));
    assert!(!ci_eq(b"content", b"content-length"));
    assert!(ci_contains(b"gzip, CHUNKED", b"chunked"));
    assert!(!ci_contains(b"gzip", b""));
    let lines: Vec<&[u8]> = lines_crlf(b"a\r\nb\n\r\n");
    assert_eq!(lines, vec![&b"a"[..], &b"b"[..], &b""[..], &b""[..]]);
}

#[test]
fn lenient_and_strict_integer_readers() {
    assert_eq!(parse_i64(b"  -12abc"), -12);
    assert_eq!(parse_i64(b"+5"), 0);
    assert_eq!(parse_i64(b"-"), 0);
    assert_eq!(parse_i64(b"18446744073709551617"), 1);
    assert_eq!(parse_usize(b" 42 "), Some(42));
    assert_eq!(parse_usize(b"4 2"), None);
    assert_eq!(parse_usize(b""), None);
    assert_eq!(parse_usize(b"99999999999999999999"), None);
    assert_eq!(parse_hex(b"1a;ext"), Some(26));
    assert_eq!(parse_hex(b"FFx"), Some(255));
    assert_eq!(parse_hex(b" 5"), None);
    assert_eq!(parse_hex(b"g"), None);
    assert_eq!(parse_std_i64(b"-9223372036854775808"), Some(i64::MIN));
    assert_eq!(parse_std_i64(b"9223372036854775808"), None);
    assert_eq!(parse_std_i64(b"+7"), Some(7));
    assert_eq!(parse_std_i64(b"-"), None);
    assert_eq!(parse_std_i64(b" 7"), None);
    assert_eq!(parse_std_i32(b"-2147483648"), Some(i32::MIN));
    assert_eq!(parse_std_i32(b"2147483648"), None);
    assert_eq!(parse_std_usize(b"-0"), None);
    assert_eq!(parse_std_u16(b"65535"), Some(65535));
    assert_eq!(parse_std_u16(b"65536"), None);
    for v in [0i64, 7, -7, 1234567890, i64::MIN, i64::MAX] {
        assert_eq!(decimal(v), v.to_string().into_bytes());
        assert_eq!(parse_std_i64(&decimal(v)), Some(v));
    }
}

#[test]
fn connection_keeps_reading_within_limits() {
    assert!(keep_reading(true, MAX_BUF));
    assert!(!keep_reading(true, MAX_BUF + 1));
    assert!(!keep_reading(false, 0));
}
