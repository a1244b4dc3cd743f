use log_ingest::cache::{BatchCache, Step};
use log_ingest::models::{Entry, LogEntry, Referrer, Request, User, Useragent};

fn request(method: &str, url: &str, status_code: i32) -> Request {
    Request { method: method.to_owned(), url: url.to_owned(), status_code }
}

fn entry(useragent: Option<&str>, referrer: Option<&str>) -> LogEntry {
    LogEntry {
        timestamp: 42,
        request: request("GET", "/a", 200),
        user: User { hash: -7, useragent: useragent.map(|v| Useragent { value: v.to_owned() }) },
        referrer: referrer.map(|r| Referrer { url: r.to_owned() }),
    }
}

#[test]
fn new_cache_knows_nothing() {
    let c = BatchCache::new();
    assert_eq!(c.lookup_request(&request("GET", "/a", 200)), None);
    assert_eq!(c.lookup_useragent(&Useragent { value: "UA".to_owned() }), None);
    assert_eq!(c.lookup_referrer(&Referrer { url: "r".to_owned() }), None);
    assert_eq!(c.lookup_user(1, None), None);
}

#[test]
fn recorded_request_is_found_by_content() {
    let mut c = BatchCache::new();
    c.record_request(&request("GET", "/a", 200), 1);
    c.record_request(&request("GET", "/a", 304), 2);
    c.record_request(&request("/a", "GET", 200), 3);
    c.record_request(&request("POST", "/a", 200), 4);
    assert_eq!(c.lookup_request(&request("GET", "/a", 200)), Some(1));
    assert_eq!(c.lookup_request(&request("GET", "/a", 304)), Some(2));
    assert_eq!(c.lookup_request(&request("/a", "GET", 200)), Some(3));
    assert_eq!(c.lookup_request(&request("POST", "/a", 200)), Some(4));
    assert_eq!(c.lookup_request(&request("GET", "/b", 200)), None);
    c.record_request(&request("GET", "/a", 200), 9);
    assert_eq!(c.lookup_request(&request("GET", "/a", 200)), Some(9));
}

#[test]
fn users_are_keyed_by_hash_and_useragent_key() {
    let mut c = BatchCache::new();
    c.record_user(5, None, 1);
    c.record_user(5, Some(0), 2);
    c.record_user(i64::MIN, Some(i32::MAX), 3);
    c.record_user(i64::MAX, Some(i32::MIN), 4);
    assert_eq!(c.lookup_user(5, None), Some(1));
    assert_eq!(c.lookup_user(5, Some(0)), Some(2));
    assert_eq!(c.lookup_user(i64::MIN, Some(i32::MAX)), Some(3));
    assert_eq!(c.lookup_user(i64::MAX, Some(i32::MIN)), Some(4));
    assert_eq!(c.lookup_user(5, Some(1)), None);
}

#[test]
fn steps_insert_each_unknown_value_once_then_the_entry() {
    let mut c = BatchCache::new();
    let e = entry(Some("UA"), Some("http://r"));
    match c.next_step(&e) {
        Step::InsertRequest(r) => {
            assert_eq!((r.method.as_str(), r.url.as_str(), r.status_code), ("GET", "/a", 200));
            c.record_request(&r, 10);
        }
        _ => panic!("the request comes first"),
    }
    match c.next_step(&e) {
        Step::InsertUseragent(u) => {
            assert_eq!(u.value, "UA");
            c.record_useragent(&u, 20);
        }
        _ => panic!("the user agent comes second"),
    }
    match c.next_step(&e) {
        Step::InsertUser(hash, useragent_id) => {
            assert_eq!((hash, useragent_id), (-7, Some(20)));
            c.record_user(hash, useragent_id, 30);
        }
        _ => panic!("the user comes third"),
    }
    match c.next_step(&e) {
        Step::InsertReferrer(r) => {
            assert_eq!(r.url, "http://r");
            c.record_referrer(&r, 40);
        }
        _ => panic!("the referrer comes fourth"),
    }
    match c.next_step(&e) {
        Step::InsertEntry(row) => assert_eq!(
            row,
            Entry { timestamp: 42, request_id: 10, user_id: 30, referrer_id: Some(40) }
        ),
        _ => panic!("the entry comes last"),
    }
    // A second time, everything is known.
    match c.next_step(&e) {
        Step::InsertEntry(row) => assert_eq!(row.request_id, 10),
        _ => panic!("nothing is inserted twice"),
    }
}

#[test]
fn absent_values_are_not_inserted() {
    let mut c = BatchCache::new();
    let e = entry(None, None);
    c.record_request(&e.request, 1);
    match c.next_step(&e) {
        Step::InsertUser(hash, useragent_id) => {
            assert_eq!((hash, useragent_id), (-7, None));
            c.record_user(hash, useragent_id, 2);
        }
        _ => panic!("no user agent to insert"),
    }
    match c.next_step(&e) {
        Step::InsertEntry(row) => {
            assert_eq!(row, Entry { timestamp: 42, request_id: 1, user_id: 2, referrer_id: None })
        }
        _ => panic!("no referrer to insert"),
    }
}
