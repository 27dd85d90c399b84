use httparena::handlers::{
    baseline_any, baseline_get, baseline_post, json_handler, pipeline, upload, ws_echo,
    BodyRead, UploadTally, WsAction, WsMessage,
};
use httparena::query::{str_to_i64, sum_query_values};
use httparena::query_text::tame_query;
use httparena::response::{json_response, plain_text, status_only};
use httparena::state::{Item, Rating};

fn text(body: &[u8]) -> String {
    String::from_utf8(body.to_vec()).unwrap()
}

fn item(id: u32, price: u32, quantity: u32) -> Item {
    Item {
        id,
        name: format!("item {id}"),
        category: "tools".to_string(),
        price,
        quantity,
        active: true,
        tags: vec!["a".to_string()],
        rating: Rating { score: 4, count: 10 },
    }
}

#[test]
fn query_values_are_summed() {
    assert_eq!(sum_query_values("a=1&b=2"), 3);
    assert_eq!(sum_query_values("a=1&b=x&c=-4"), -3);
    assert_eq!(sum_query_values(""), 0);
    // Percent-decoding happens in the query parser: %31 is "1".
    assert_eq!(sum_query_values("a=%31&b=+2"), 1);
    // Nested and list values are not plain strings and are not counted.
    assert_eq!(sum_query_values("a[x]=5&b=6"), 6);
    // A repeated key becomes a list.
    assert_eq!(sum_query_values("a=5&a=6&b=1"), 1);
    assert_eq!(sum_query_values("a=9223372036854775807&b=1"), i64::MIN);
}

#[test]
fn oversized_list_indices_are_rewritten() {
    assert_eq!(tame_query("a=1&b=2"), None);
    assert_eq!(tame_query("a[18446744073709551614]=1&a=2"), Some("a[0]=1&a=2".to_string()));
    assert_eq!(tame_query("a[+018446744073709551615]=1"), Some("a[0]=1".to_string()));
    assert_eq!(tame_query("a[b]18446744073709551615=1"), Some("a[b]0=1".to_string()));
    assert_eq!(tame_query("a[5][7]=1&c=[18446744073709551615]"), None);
    assert_eq!(tame_query("a[18446744073709551615x]=1"), None);
    // The other parameters are read as querystrong reads them.
    assert_eq!(sum_query_values("a=5&x[18446744073709551615]=1"), 5);
    assert_eq!(sum_query_values("a[18446744073709551614]=x&a[]=y&a[]=z&b=3"), 3);
    assert_eq!(sum_query_values("a[18446744073709551615]=1&a=2&b=7"), 7);
    assert_eq!(text(&baseline_get("a=1&b=2&x[18446744073709551615]=1").body), "3");
    assert_eq!(text(&baseline_post("x[18446744073709551615]=1&a=4", Some("5")).body), "9");
    let items = vec![item(1, 2, 3)];
    let list = json_handler(Some("1"), "m=2&a[18446744073709551615]=1&a=2", &items);
    assert_eq!(list.totals, vec![12]);
}

#[test]
fn strict_integer_reading_of_strings() {
    assert_eq!(str_to_i64("42"), Some(42));
    assert_eq!(str_to_i64(" 42"), None);
    assert_eq!(str_to_i64("4x"), None);
}

#[test]
fn pipeline_and_baseline_get() {
    let r = pipeline();
    assert_eq!(r.status, 200);
    assert_eq!(r.headers, vec![("Content-Type", "text/plain")]);
    assert_eq!(r.body, b"ok");
    let r = baseline_get("a=20&b=22");
    assert_eq!(r.status, 200);
    assert_eq!(text(&r.body), "42");
}

#[test]
fn baseline_post_adds_trimmed_body() {
    assert_eq!(text(&baseline_post("a=1&b=2", Some(" 10\n")).body), "13");
    assert_eq!(text(&baseline_post("a=1&b=2", Some("\u{3000}10\u{a0}")).body), "13");
    assert_eq!(text(&baseline_post("a=1&b=2", Some("ten")).body), "3");
    assert_eq!(text(&baseline_post("a=1&b=2", None).body), "3");
    assert_eq!(text(&baseline_any(true, "a=1", Some("1")).body), "2");
    assert_eq!(text(&baseline_any(false, "a=1", Some("1")).body), "1");
}

#[test]
fn upload_counts_bytes_until_the_end() {
    let mut t = UploadTally::new();
    t.absorb(BodyRead::Data(65536));
    t.absorb(BodyRead::Data(100));
    t.absorb(BodyRead::End);
    assert!(t.finished);
    let r = upload(&t);
    assert_eq!(r.status, 200);
    assert_eq!(text(&r.body), "65636");
}

#[test]
fn upload_failure_is_bad_request() {
    let mut t = UploadTally::new();
    t.absorb(BodyRead::Data(5));
    t.absorb(BodyRead::Failed);
    let r = upload(&t);
    assert_eq!(r.status, 400);
    assert!(r.headers.is_empty());
    assert!(r.body.is_empty());
}

#[test]
fn json_lists_the_first_items_with_totals() {
    let data = vec![item(1, 10, 3), item(2, 7, 2), item(3, 1, 1)];
    let l = json_handler(Some("2"), "m=3", &data);
    assert_eq!(l.count, 2);
    assert_eq!(l.totals, vec![90, 42]);
    let l = json_handler(Some("10"), "", &data);
    assert_eq!(l.count, 3);
    assert_eq!(l.totals, vec![30, 14, 1]);
    let l = json_handler(Some("x"), "m=2", &data);
    assert_eq!(l.count, 0);
    assert!(l.totals.is_empty());
    let l = json_handler(None, "m=oops", &data);
    assert_eq!(l.count, 0);
    let big = vec![item(1, u32::MAX, u32::MAX)];
    let l = json_handler(Some("1"), "m=2", &big);
    let expected = (u32::MAX as i64).wrapping_mul(u32::MAX as i64).wrapping_mul(2);
    assert_eq!(l.totals, vec![expected]);
}

#[test]
fn websocket_echo_decisions() {
    assert!(matches!(ws_echo(Some(WsMessage::Text("hi".to_string()))), WsAction::SendText(t) if t == "hi"));
    assert!(matches!(ws_echo(Some(WsMessage::Binary(vec![1, 2]))), WsAction::SendBinary(b) if b == vec![1, 2]));
    assert!(matches!(ws_echo(Some(WsMessage::Ping)), WsAction::Skip));
    assert!(matches!(ws_echo(Some(WsMessage::Pong)), WsAction::Skip));
    assert!(matches!(ws_echo(Some(WsMessage::Frame)), WsAction::Skip));
    assert!(matches!(ws_echo(Some(WsMessage::Close)), WsAction::Stop));
    assert!(matches!(ws_echo(None), WsAction::Stop));
}

#[test]
fn response_builders() {
    let r = plain_text(b"x".to_vec());
    assert_eq!((r.status, r.headers.clone(), r.body.clone()), (200, vec![("Content-Type", "text/plain")], b"x".to_vec()));
    let r = json_response(b"{}".to_vec());
    assert_eq!(r.headers, vec![("Content-Type", "application/json")]);
    let r = status_only(404);
    assert_eq!(r.status, 404);
    assert!(r.headers.is_empty() && r.body.is_empty());
}
