use log_ingest::block::prepare_block;
use log_ingest::cache::{
    BatchCache, Step, StoredRows, INSERT_ENTRY, INSERT_REFERRER, INSERT_REQUEST, INSERT_USER, INSERT_USERAGENT, SCHEMA,
    SELECT_REFERRERS, SELECT_REQUESTS, SELECT_USERAGENTS, SELECT_USERS,
};
use log_ingest::models::{LogEntry, Referrer, Request, Useragent};
use log_ingest::parser::split_line;
use rusqlite::Connection;

const LINE_A: &str =
    r#"127.0.0.1 - - [10/Oct/2000:13:55:36 -0700] "GET /a HTTP/1.0" 200 2326 "-" "UA/1.0""#;
const LINE_R: &str =
    r#"127.0.0.1 - - [10/Oct/2000:13:55:36 -0700] "GET /a HTTP/1.0" 200 2326 "http://r" "UA/1.0""#;

fn parse(line: &str) -> Option<LogEntry> {
    let fields = split_line(line)?;
    // The addresses of these lines are written in standard form.
    let ip = Some(fields.ip.clone());
    fields.to_entry(ip)
}

struct Store {
    con: Connection,
    cache: BatchCache,
    dimension_inserts: usize,
}

impl Store {
    fn open() -> Store {
        let con = Connection::open_in_memory().unwrap();
        con.execute_batch(SCHEMA).unwrap();
        Store { con, cache: BatchCache::new(), dimension_inserts: 0 }
    }

    fn populate(&mut self) {
        let mut stmt = self.con.prepare(SELECT_REQUESTS).unwrap();
        let rows: Vec<(Request, i32)> = stmt
            .query_map([], |r| {
                Ok((Request { method: r.get(1)?, url: r.get(2)?, status_code: r.get(3)? }, r.get(0)?))
            })
            .unwrap()
            .map(Result::unwrap)
            .collect();
        let requests = rows;
        let mut stmt = self.con.prepare(SELECT_USERAGENTS).unwrap();
        let rows: Vec<(Useragent, i32)> =
            stmt.query_map([], |r| Ok((Useragent { value: r.get(1)? }, r.get(0)?))).unwrap().map(Result::unwrap).collect();
        let useragents = rows;
        let mut stmt = self.con.prepare(SELECT_REFERRERS).unwrap();
        let rows: Vec<(Referrer, i32)> =
            stmt.query_map([], |r| Ok((Referrer { url: r.get(1)? }, r.get(0)?))).unwrap().map(Result::unwrap).collect();
        let referrers = rows;
        let mut stmt = self.con.prepare(SELECT_USERS).unwrap();
        let rows: Vec<(i64, Option<i32>, i32)> =
            stmt.query_map([], |r| Ok((r.get(1)?, r.get(2)?, r.get(0)?))).unwrap().map(Result::unwrap).collect();
        self.cache.populate(&StoredRows { requests, useragents, referrers, users: rows });
    }

    fn persist(&mut self, e: &LogEntry) {
        loop {
            match self.cache.next_step(e) {
                Step::InsertRequest(r) => {
                    let id: i32 = self
                        .con
                        .query_row(INSERT_REQUEST, (&r.method, &r.url, r.status_code), |row| row.get(0))
                        .unwrap();
                    self.dimension_inserts += 1;
                    self.cache.record_request(&r, id);
                }
                Step::InsertUseragent(u) => {
                    let id: i32 = self.con.query_row(INSERT_USERAGENT, (&u.value,), |row| row.get(0)).unwrap();
                    self.dimension_inserts += 1;
                    self.cache.record_useragent(&u, id);
                }
                Step::InsertUser(hash, useragent_id) => {
                    let id: i32 =
                        self.con.query_row(INSERT_USER, (hash, useragent_id), |row| row.get(0)).unwrap();
                    self.dimension_inserts += 1;
                    self.cache.record_user(hash, useragent_id, id);
                }
                Step::InsertReferrer(rf) => {
                    let id: i32 = self.con.query_row(INSERT_REFERRER, (&rf.url,), |row| row.get(0)).unwrap();
                    self.dimension_inserts += 1;
                    self.cache.record_referrer(&rf, id);
                }
                Step::InsertEntry(row) => {
                    self.con
                        .execute(INSERT_ENTRY, (row.timestamp, row.request_id, row.user_id, row.referrer_id))
                        .unwrap();
                    return;
                }
            }
        }
    }

    fn ingest(&mut self, lines: &[&str]) -> usize {
        let mut parse_errors = 0;
        let mut entries = Vec::new();
        for line in lines {
            match parse(line) {
                Some(e) => entries.push(e),
                None => parse_errors += 1,
            }
        }
        self.con.execute_batch("BEGIN").unwrap();
        for e in prepare_block(entries) {
            self.persist(&e);
        }
        self.con.execute_batch("COMMIT").unwrap();
        parse_errors
    }

    fn count(&self, table: &str) -> i64 {
        self.con.query_row(&format!("SELECT COUNT(*) FROM {}", table), [], |r| r.get(0)).unwrap()
    }
}

#[test]
fn minimal_valid_line() {
    let mut s = Store::open();
    assert_eq!(s.ingest(&[LINE_A]), 0);
    assert_eq!(s.count("requests"), 1);
    assert_eq!(s.count("useragents"), 1);
    assert_eq!(s.count("referrers"), 0);
    assert_eq!(s.count("users"), 1);
    assert_eq!(s.count("entrys"), 1);
    let (method, url, status): (String, String, i32) =
        s.con.query_row("SELECT method, url, status_code FROM requests", [], |r| Ok((r.get(0)?, r.get(1)?, r.get(2)?))).unwrap();
    assert_eq!((method.as_str(), url.as_str(), status), ("GET", "/a", 200));
    let value: String = s.con.query_row("SELECT value FROM useragents", [], |r| r.get(0)).unwrap();
    assert_eq!(value, "UA/1.0");
    let (hash, ua_id): (i64, i32) =
        s.con.query_row("SELECT hash, useragent_id FROM users", [], |r| Ok((r.get(0)?, r.get(1)?))).unwrap();
    assert_eq!(hash, log_ingest::parser::pseudonym("127.0.0.1", "UA/1.0"));
    assert_eq!(ua_id, 1);
    let (ts, referrer): (i64, Option<i32>) =
        s.con.query_row("SELECT timestamp, referrer_id FROM entrys", [], |r| Ok((r.get(0)?, r.get(1)?))).unwrap();
    assert_eq!(ts, 971211336);
    assert_eq!(referrer, None);
}

#[test]
fn duplicate_line_three_times() {
    let mut s = Store::open();
    s.ingest(&[LINE_A, LINE_A, LINE_A]);
    assert_eq!(s.count("requests"), 1);
    assert_eq!(s.count("useragents"), 1);
    assert_eq!(s.count("users"), 1);
    assert_eq!(s.count("referrers"), 0);
    assert_eq!(s.count("entrys"), 1);
}

#[test]
fn lines_differing_only_in_referrer() {
    // Both lines have the same time, request and user: the block keeps the first,
    // and the store holds one entry for that triple.
    let mut s = Store::open();
    s.ingest(&[LINE_A, LINE_R]);
    assert_eq!(s.count("users"), 1);
    assert_eq!(s.count("entrys"), 1);
    // In separate blocks the second line meets the stored entry and is absorbed,
    // but its referrer is stored.
    let mut s = Store::open();
    s.ingest(&[LINE_A]);
    s.ingest(&[LINE_R]);
    assert_eq!(s.count("users"), 1);
    assert_eq!(s.count("referrers"), 1);
    assert_eq!(s.count("entrys"), 1);
}

#[test]
fn malformed_line_interleaved_with_valid_line() {
    let mut s = Store::open();
    let errors = s.ingest(&["this is not a log line", LINE_A]);
    assert_eq!(errors, 1);
    assert_eq!(s.count("entrys"), 1);
    assert_eq!(s.count("requests"), 1);
}

#[test]
fn block_of_malformed_lines_stores_nothing() {
    let mut s = Store::open();
    let errors = s.ingest(&["a", "b", "c"]);
    assert_eq!(errors, 3);
    assert_eq!(s.count("entrys"), 0);
    assert_eq!(s.count("requests"), 0);
}

#[test]
fn second_run_over_same_input() {
    let mut s = Store::open();
    s.ingest(&[LINE_A, LINE_R]);
    s.ingest(&[LINE_R]);
    let counts: Vec<i64> =
        ["requests", "useragents", "referrers", "users", "entrys"].iter().map(|t| s.count(t)).collect();
    // A new process: an empty cache, populated from the store.
    s.cache = BatchCache::new();
    s.populate();
    s.dimension_inserts = 0;
    s.ingest(&[LINE_A, LINE_R]);
    s.ingest(&[LINE_R]);
    let again: Vec<i64> =
        ["requests", "useragents", "referrers", "users", "entrys"].iter().map(|t| s.count(t)).collect();
    assert_eq!(counts, again);
    assert_eq!(s.dimension_inserts, 0);
}

#[test]
fn intern_twice_after_populate_inserts_once() {
    let mut s = Store::open();
    s.populate();
    let e = parse(LINE_A).unwrap();
    s.persist(&e);
    let inserts = s.dimension_inserts;
    assert_eq!(inserts, 3);
    let id = s.cache.lookup_request(&e.request);
    s.persist(&e);
    assert_eq!(s.dimension_inserts, inserts);
    assert_eq!(s.cache.lookup_request(&e.request), id);
    assert_eq!(id, Some(1));
}

#[test]
fn useragent_dash_stores_no_useragent() {
    let mut s = Store::open();
    s.ingest(&[r#"127.0.0.1 - - [10/Oct/2000:13:55:36 -0700] "GET /a HTTP/1.0" 200 2326 "-" "-""#]);
    assert_eq!(s.count("useragents"), 0);
    assert_eq!(s.count("users"), 1);
    let ua: Option<i32> = s.con.query_row("SELECT useragent_id FROM users", [], |r| r.get(0)).unwrap();
    assert_eq!(ua, None);
    assert_eq!(s.count("entrys"), 1);
}

#[test]
fn block_of_many_lines_with_few_values() {
    let useragents = ["UA/1.0", "UA/2.0"];
    let urls = ["/a", "/b", "/c", "/d", "/e"];
    let mut lines = Vec::new();
    for i in 0..100_000u32 {
        let second = i % 60;
        let minute = (i / 60) % 60;
        lines.push(format!(
            "10.0.0.{} - - [10/Oct/2000:13:{:02}:{:02} -0700] \"GET {} HTTP/1.0\" 200 1 \"-\" \"{}\"",
            i % 3,
            minute,
            second,
            urls[(i % 5) as usize],
            useragents[(i % 2) as usize]
        ));
    }
    let refs: Vec<&str> = lines.iter().map(|l| l.as_str()).collect();
    let mut distinct = std::collections::HashSet::new();
    for l in &refs {
        let e = parse(l).unwrap();
        distinct.insert((e.timestamp, e.user.hash, e.request.url.clone()));
    }
    let mut s = Store::open();
    assert_eq!(s.ingest(&refs), 0);
    assert!(s.count("useragents") <= 2);
    assert!(s.count("requests") <= 5);
    assert!(s.count("entrys") <= 100_000);
    assert_eq!(s.count("entrys"), distinct.len() as i64);
}
