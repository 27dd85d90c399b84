use httparena::crud::{
    async_db, async_db_empty, async_db_listing, crud_create, crud_create_written, crud_list,
    crud_list_page, crud_list_without_db, crud_read, crud_read_fetched, crud_update,
    crud_update_done, Fetched, Step,
};
use httparena::state::{CrudCache, CRUD_CACHE_TTL};

fn status(s: &Step) -> Option<u16> {
    match s {
        Step::Respond(r) => Some(r.status),
        Step::Proceed(_) => None,
    }
}

#[test]
fn list_parameters_default_and_clamp() {
    let q = crud_list("");
    assert_eq!((q.category.as_str(), q.page, q.limit, q.offset), ("electronics", 1, 10, 0));
    let q = crud_list("category=books&page=3&limit=20");
    assert_eq!((q.category.as_str(), q.page, q.limit, q.offset), ("books", 3, 20, 40));
    let q = crud_list("page=-4&limit=500");
    assert_eq!((q.page, q.limit, q.offset), (1, 50, 0));
    let q = crud_list("page=x&limit=0");
    assert_eq!((q.page, q.limit), (1, 1));
    let q = crud_list("category=books&page=3&x[18446744073709551615]=1&x=2");
    assert_eq!((q.category.as_str(), q.page, q.limit), ("books", 3, 10));
    let a = async_db("min=1&max=2&x[18446744073709551615]=1&x=2");
    assert_eq!((a.min, a.max, a.limit), (1, 2, 50));
    let q = crud_list("page=9223372036854775807&limit=50");
    assert_eq!(q.offset, (i64::MAX - 1).wrapping_mul(50));
}

#[test]
fn list_page_counts_rows() {
    let q = crud_list("page=2");
    let p = crud_list_page(Some(vec!["a", "b"]), &q);
    assert_eq!((p.total, p.page, p.limit), (2, 2, 10));
    let p = crud_list_page::<&str>(None, &q);
    assert_eq!(p.total, 0);
    assert!(p.items.is_empty());
    let r = crud_list_without_db();
    assert_eq!(r.body, br#"{"items":[],"total":0,"page":1,"limit":10}"#);
    assert_eq!(r.headers, vec![("Content-Type", "application/json")]);
}

#[test]
fn read_through_cache_hits_until_expiry() {
    let mut cache = CrudCache::new();
    assert_eq!(status(&crud_read(Some("x"), &cache, 0, true)), Some(400));
    assert_eq!(status(&crud_read(None, &cache, 0, true)), Some(400));
    assert_eq!(status(&crud_read(Some("7"), &cache, 0, false)), Some(404));
    assert!(matches!(crud_read(Some("7"), &cache, 0, true), Step::Proceed(7)));

    let r = crud_read_fetched(&mut cache, 7, Fetched::Found(b"{\"id\":7}".to_vec()), 1000);
    assert_eq!(r.status, 200);
    assert_eq!(r.headers, vec![("Content-Type", "application/json"), ("x-cache", "MISS")]);

    match crud_read(Some("7"), &cache, 1000 + CRUD_CACHE_TTL - 1, false) {
        Step::Respond(r) => {
            assert_eq!(r.headers, vec![("Content-Type", "application/json"), ("x-cache", "HIT")]);
            assert_eq!(r.body, b"{\"id\":7}");
        }
        Step::Proceed(_) => panic!("fresh entry missed"),
    }
    assert!(matches!(crud_read(Some("7"), &cache, 1000 + CRUD_CACHE_TTL, true), Step::Proceed(7)));
    assert!(cache.lookup(8, 0).is_none());
}

#[test]
fn read_of_missing_or_failing_row() {
    let mut cache = CrudCache::new();
    assert_eq!(crud_read_fetched(&mut cache, 1, Fetched::Missing, 0).status, 404);
    assert_eq!(crud_read_fetched(&mut cache, 1, Fetched::Failed, 0).status, 500);
    assert!(cache.lookup(1, 0).is_none());
}

#[test]
fn writes_invalidate_the_cached_read() {
    let mut cache = CrudCache::new();
    cache.store(3, b"old".to_vec(), 0);
    assert_eq!(cache.lookup(3, 1), Some(b"old".to_vec()));
    let r = crud_create_written(&mut cache, 3, Some(b"new".to_vec()));
    assert_eq!(r.status, 201);
    assert!(cache.lookup(3, 1).is_none());

    cache.store(4, b"old".to_vec(), 0);
    let r = crud_update_done(&mut cache, 4, Fetched::Found(b"upd".to_vec()));
    assert_eq!((r.status, r.body.clone()), (200, b"upd".to_vec()));
    assert!(cache.lookup(4, 1).is_none());

    cache.store(5, b"keep".to_vec(), 0);
    assert_eq!(crud_update_done(&mut cache, 5, Fetched::Missing).status, 404);
    assert_eq!(crud_create_written(&mut cache, 5, None).status, 500);
    assert_eq!(cache.lookup(5, 1), Some(b"keep".to_vec()));
}

#[test]
fn create_and_update_checks_in_order() {
    assert_eq!(status(&crud_create(false, Some(1), true)), Some(400));
    assert_eq!(status(&crud_create(true, None, true)), Some(422));
    assert_eq!(status(&crud_create(true, Some(1), false)), Some(503));
    assert!(matches!(crud_create(true, Some(1), true), Step::Proceed(1)));

    assert_eq!(status(&crud_update(Some("z"), true, true, true)), Some(400));
    assert_eq!(status(&crud_update(Some("2"), false, true, true)), Some(400));
    assert_eq!(status(&crud_update(Some("2"), true, false, true)), Some(422));
    assert_eq!(status(&crud_update(Some("2"), true, true, false)), Some(503));
    assert!(matches!(crud_update(Some("-2"), true, true, true), Step::Proceed(-2)));
}

#[test]
fn async_db_parameters() {
    let q = async_db("");
    assert_eq!((q.min, q.max, q.limit), (10, 50, 50));
    let q = async_db("min=1&max=99&limit=7");
    assert_eq!((q.min, q.max, q.limit), (1, 99, 7));
    let q = async_db("min=99999999999&limit=-1");
    assert_eq!((q.min, q.limit), (10, 1));
    let l = async_db_listing(vec![1, 2, 3]);
    assert_eq!(l.count, 3);
    assert_eq!(async_db_empty().body, br#"{"items":[],"count":0}"#);
}
