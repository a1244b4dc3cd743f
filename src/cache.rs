//! The identity cache of the persister: the key of each dimension value that the
//! store holds, and the steps that store one entry.

use std::collections::HashMap;
use vstd::hash_map::StringHashMap;
use vstd::prelude::*;
use crate::models::{copy_text, Entry, LogEntry, LogEntryView, Referrer, Request, RequestView, Useragent};

verus! {

broadcast use vstd::std_specs::hash::group_hash_axioms;

/// The tables of the store. Dimension rows are unique by content; entry rows by
/// time, request and user. `users.hash` is the client pseudonym: the first eight
/// bytes of the MD5 digest of the address followed by the user agent, read as a
/// little-endian signed 64-bit integer.
pub const SCHEMA: &'static str = "
CREATE TABLE IF NOT EXISTS requests (
    id INTEGER PRIMARY KEY AUTOINCREMENT,
    method TEXT NOT NULL,
    url TEXT NOT NULL,
    status_code INTEGER NOT NULL,
    UNIQUE (method, url, status_code)
);
CREATE TABLE IF NOT EXISTS useragents (
    id INTEGER PRIMARY KEY AUTOINCREMENT,
    value TEXT NOT NULL,
    UNIQUE (value)
);
CREATE TABLE IF NOT EXISTS referrers (
    id INTEGER PRIMARY KEY AUTOINCREMENT,
    url TEXT NOT NULL,
    UNIQUE (url)
);
-- hash: first 8 bytes of MD5(ip || useragent), little-endian, signed 64-bit
CREATE TABLE IF NOT EXISTS users (
    id INTEGER PRIMARY KEY AUTOINCREMENT,
    hash INTEGER NOT NULL,
    useragent_id INTEGER NULL REFERENCES useragents (id),
    UNIQUE (hash, useragent_id)
);
CREATE TABLE IF NOT EXISTS entrys (
    id INTEGER PRIMARY KEY AUTOINCREMENT,
    timestamp INTEGER NOT NULL,
    request_id INTEGER NOT NULL REFERENCES requests (id),
    user_id INTEGER NOT NULL REFERENCES users (id),
    referrer_id INTEGER NULL REFERENCES referrers (id),
    UNIQUE (timestamp, request_id, user_id)
);
";

/// Inserts a request (method, url, status code) and gives its key.
pub const INSERT_REQUEST: &'static str = "INSERT INTO requests (method, url, status_code) VALUES (?1, ?2, ?3) RETURNING id";

/// Inserts a user agent (value) and gives its key.
pub const INSERT_USERAGENT: &'static str = "INSERT INTO useragents (value) VALUES (?1) RETURNING id";

/// Inserts a user (hash, user agent key) and gives its key.
pub const INSERT_USER: &'static str = "INSERT INTO users (hash, useragent_id) VALUES (?1, ?2) RETURNING id";

/// Inserts a referrer (url) and gives its key.
pub const INSERT_REFERRER: &'static str = "INSERT INTO referrers (url) VALUES (?1) RETURNING id";

/// Inserts an entry row; a row for the same time, request and user is kept as it is.
pub const INSERT_ENTRY: &'static str = "INSERT INTO entrys (timestamp, request_id, user_id, referrer_id) VALUES (?1, ?2, ?3, ?4) ON CONFLICT DO NOTHING";

/// The stored requests with their keys: id, method, url, status code.
pub const SELECT_REQUESTS: &'static str = "SELECT id, method, url, status_code FROM requests";

/// The stored user agents with their keys: id, value.
pub const SELECT_USERAGENTS: &'static str = "SELECT id, value FROM useragents";

/// The stored referrers with their keys: id, url.
pub const SELECT_REFERRERS: &'static str = "SELECT id, url FROM referrers";

/// The stored users with their keys: id, hash, user agent key.
pub const SELECT_USERS: &'static str = "SELECT id, hash, useragent_id FROM users";

/// Two numbers below 2^64 as one key.
pub open spec fn pair_key(a: int, b: int) -> int {
    a * 0x1_0000_0000_0000_0000 + b
}

proof fn lemma_pair_key_injective(a1: int, b1: int, a2: int, b2: int)
    requires
        0 <= b1 < 0x1_0000_0000_0000_0000,
        0 <= b2 < 0x1_0000_0000_0000_0000,
        pair_key(a1, b1) == pair_key(a2, b2),
    ensures
        a1 == a2,
        b1 == b2,
{
    assert((a1 - a2) * 0x1_0000_0000_0000_0000 == b2 - b1) by (nonlinear_arith)
        requires
            a1 * 0x1_0000_0000_0000_0000 + b1 == a2 * 0x1_0000_0000_0000_0000 + b2,
    ;
    if a1 > a2 {
        assert((a1 - a2) * 0x1_0000_0000_0000_0000 >= 0x1_0000_0000_0000_0000) by (nonlinear_arith)
            requires
                a1 - a2 >= 1,
        ;
    } else if a1 < a2 {
        assert((a2 - a1) * 0x1_0000_0000_0000_0000 >= 0x1_0000_0000_0000_0000) by (nonlinear_arith)
            requires
                a2 - a1 >= 1,
        ;
    }
}

fn pair_key_exec(a: u64, b: u64) -> (r: u128)
    ensures
        r == pair_key(a as int, b as int),
{
    (a as u128) * 0x1_0000_0000_0000_0000 + (b as u128)
}

/// The identity cache of the persister: for each dimension, the key that the store
/// gave to each value it holds. Strings of requests are numbered in `symbols`, so
/// that requests can be keyed by numbers.
pub struct BatchCache {
    symbols: StringHashMap<u64>,
    names: Vec<String>,
    requests_cache: HashMap<u128, HashMap<i32, i32>>,
    useragents_cache: StringHashMap<i32>,
    referrer_cache: StringHashMap<i32>,
    users_cache: HashMap<u128, i32>,
}

impl BatchCache {
    /// The symbol table numbers each string once: the number of `s` leads back to `s`.
    pub closed spec fn symbols_wf(&self) -> bool {
        forall|s: Seq<char>|
            #[trigger] self.symbols@.contains_key(s) ==> self.symbols@[s] < self.names@.len()
                && self.names@[self.symbols@[s] as int]@ == s
    }

    /// Every request key is made of two numbers of the symbol table.
    pub closed spec fn request_keys_wf(&self) -> bool {
        forall|key: u128|
            #[trigger] self.requests_cache@.contains_key(key) ==> exists|a: int, b: int|
                0 <= a < self.names@.len() && 0 <= b < self.names@.len() && key == pair_key(a, b)
    }

    pub closed spec fn wf(&self) -> bool {
        self.symbols_wf() && self.request_keys_wf()
    }

    pub closed spec fn request_key(&self, r: RequestView) -> u128 {
        pair_key(self.symbols@[r.method] as int, self.symbols@[r.url] as int) as u128
    }

    pub closed spec fn has_request(&self, r: RequestView) -> bool {
        &&& self.symbols@.contains_key(r.method)
        &&& self.symbols@.contains_key(r.url)
        &&& self.requests_cache@.contains_key(self.request_key(r))
        &&& self.requests_cache@[self.request_key(r)]@.contains_key(r.status_code)
    }

    /// The key of each request that the cache knows.
    pub closed spec fn requests(&self) -> Map<RequestView, i32> {
        Map::new(
            |r: RequestView| self.has_request(r),
            |r: RequestView| self.requests_cache@[self.request_key(r)]@[r.status_code],
        )
    }

    /// The key of each user agent that the cache knows.
    pub closed spec fn useragents(&self) -> Map<Seq<char>, i32> {
        self.useragents_cache@
    }

    /// The key of each referrer that the cache knows.
    pub closed spec fn referrers(&self) -> Map<Seq<char>, i32> {
        self.referrer_cache@
    }

    /// The key of each user that the cache knows, by hash and user agent key.
    pub closed spec fn users(&self) -> Map<(i64, Option<i32>), i32> {
        Map::new(
            |u: (i64, Option<i32>)| self.users_cache@.contains_key(user_key(u.0, u.1)),
            |u: (i64, Option<i32>)| self.users_cache@[user_key(u.0, u.1)],
        )
    }

    /// An empty cache.
    pub fn new() -> (r: BatchCache)
        ensures
            r.wf(),
            r.requests().is_empty(),
            r.useragents().is_empty(),
            r.referrers().is_empty(),
            r.users().is_empty(),
    {
        let r = BatchCache {
            symbols: StringHashMap::new(),
            names: Vec::new(),
            requests_cache: HashMap::new(),
            useragents_cache: StringHashMap::new(),
            referrer_cache: StringHashMap::new(),
            users_cache: HashMap::new(),
        };
        assert(r.requests() =~= Map::empty());
        assert(r.users() =~= Map::empty());
        r
    }

    fn find_symbol(&self, s: &String) -> (r: Option<u64>)
        requires
            self.wf(),
        ensures
            match r {
                Some(n) => self.symbols@.contains_key(s@) && self.symbols@[s@] == n,
                None => !self.symbols@.contains_key(s@),
            },
    {
        match self.symbols.get(s.as_str()) {
            Some(n) => Some(*n),
            None => None,
        }
    }

    /// The number of `s`, which it gets if it had none.
    fn symbol(&mut self, s: &String) -> (r: u64)
        requires
            old(self).wf(),
        ensures
            final(self).wf(),
            final(self).symbols@ == old(self).symbols@.insert(s@, r),
            old(self).symbols@.contains_key(s@) ==> old(self).symbols@[s@] == r,
            final(self).names@.len() >= old(self).names@.len(),
            forall|i: int| 0 <= i < old(self).names@.len() ==> #[trigger] final(self).names@[i] == old(self).names@[i],
            final(self).requests_cache@ == old(self).requests_cache@,
            final(self).useragents_cache@ == old(self).useragents_cache@,
            final(self).referrer_cache@ == old(self).referrer_cache@,
            final(self).users_cache@ == old(self).users_cache@,
            old(self).symbols@.contains_key(s@) <==> r < old(self).names@.len(),
            r < final(self).names@.len(),
    {
        match self.symbols.get(s.as_str()) {
            Some(n) => {
                let n = *n;
                assert(self.symbols@.insert(s@, n) =~= self.symbols@);
                n
            },
            None => {
                let n = self.names.len() as u64;
                let ghost old_self = *self;
                self.names.push(copy_text(s));
                self.symbols.insert(copy_text(s), n);
                assert forall|t: Seq<char>| #[trigger] self.symbols@.contains_key(t) implies self.symbols@[t]
                    < self.names@.len() && self.names@[self.symbols@[t] as int]@ == t by {
                    if t != s@ {
                        assert(old_self.symbols@.contains_key(t));
                        assert(self.names@[old_self.symbols@[t] as int] == old_self.names@[old_self.symbols@[t] as int]);
                    }
                }
                assert forall|key: u128| #[trigger] self.requests_cache@.contains_key(key) implies exists|a: int, b: int|
                    0 <= a < self.names@.len() && 0 <= b < self.names@.len() && key == pair_key(a, b) by {
                    assert(old_self.requests_cache@.contains_key(key));
                    let (a, b) = choose|a: int, b: int|
                        0 <= a < old_self.names@.len() && 0 <= b < old_self.names@.len() && key == pair_key(a, b);
                    assert(0 <= a < self.names@.len() && 0 <= b < self.names@.len() && key == pair_key(a, b));
                }
                n
            },
        }
    }

    /// The key of `r`, where the cache knows it.
    pub fn lookup_request(&self, r: &Request) -> (res: Option<i32>)
        requires
            self.wf(),
        ensures
            match res {
                Some(id) => self.requests().contains_key(r@) && self.requests()[r@] == id,
                None => !self.requests().contains_key(r@),
            },
    {
        let m = match self.find_symbol(&r.method) {
            Some(m) => m,
            None => return None,
        };
        let u = match self.find_symbol(&r.url) {
            Some(u) => u,
            None => return None,
        };
        let key = pair_key_exec(m, u);
        match self.requests_cache.get(&key) {
            None => None,
            Some(statuses) => match statuses.get(&r.status_code) {
                Some(id) => Some(*id),
                None => None,
            },
        }
    }

    /// Records that the store gave `r` the key `id`.
    pub fn record_request(&mut self, r: &Request, id: i32)
        requires
            old(self).wf(),
        ensures
            final(self).wf(),
            final(self).requests() == old(self).requests().insert(r@, id),
            final(self).useragents() == old(self).useragents(),
            final(self).referrers() == old(self).referrers(),
            final(self).users() == old(self).users(),
    {
        let ghost before = *self;
        let m = self.symbol(&r.method);
        let ghost mid = *self;
        let u = self.symbol(&r.url);
        let ghost mid2 = *self;
        let key = pair_key_exec(m, u);
        let mut statuses = match self.requests_cache.remove(&key) {
            Some(statuses) => statuses,
            None => HashMap::new(),
        };
        statuses.insert(r.status_code, id);
        self.requests_cache.insert(key, statuses);
        proof {
            let n0 = before.names@.len();
            assert(before.names.len() == n0);
            assert(self.symbols@ == before.symbols@.insert(r.method@, m).insert(r.url@, u));
            assert(self.symbols@[r.method@] == m) by {
                if r.url@ == r.method@ {
                    assert(mid.symbols@.contains_key(r.url@));
                }
            }
            assert(m < self.names@.len() && u < self.names@.len());
            assert(self.requests_cache@ == before.requests_cache@.remove(key).insert(key, statuses));
            // Strings that had a number keep it.
            assert forall|t: Seq<char>| #[trigger] before.symbols@.contains_key(t) implies self.symbols@.contains_key(t)
                && self.symbols@[t] == before.symbols@[t] && before.symbols@[t] < n0 by {
                if t == r.method@ {
                    assert(before.symbols@[t] == m);
                }
                if t == r.url@ {
                    assert(mid.symbols@.contains_key(t) && mid.symbols@[t] == before.symbols@[t]);
                }
            }
            // Strings that had no number get one at `n0` or above.
            assert forall|t: Seq<char>| #[trigger] self.symbols@.contains_key(t) && !before.symbols@.contains_key(t)
                implies self.symbols@[t] >= n0 by {
                if t == r.url@ {
                    if !mid.symbols@.contains_key(t) {
                        assert(u >= mid.names@.len());
                    }
                }
            }
            assert forall|k: u128| #[trigger] self.requests_cache@.contains_key(k) implies exists|a: int, b: int|
                0 <= a < self.names@.len() && 0 <= b < self.names@.len() && k == pair_key(a, b) by {
                if k != key {
                    assert(mid2.requests_cache@.contains_key(k));
                } else {
                    assert(0 <= m < self.names@.len() && 0 <= u < self.names@.len() && k == pair_key(m as int, u as int));
                }
            }
            assert forall|q: RequestView| #[trigger] self.has_request(q) == (before.has_request(q) || q == r@) by {
                if q != r@ {
                    if before.has_request(q) {
                        assert(before.request_key(q) == self.request_key(q));
                    }
                    if self.has_request(q) {
                        let qa = self.symbols@[q.method] as int;
                        let qb = self.symbols@[q.url] as int;
                        let rk = self.request_key(q);
                        if rk == key {
                            lemma_pair_key_injective(qa, qb, m as int, u as int);
                            assert(q.method == self.names@[m as int]@);
                            assert(r.method@ == self.names@[m as int]@);
                            assert(q.url == r.url@);
                            assert(q.status_code != r.status_code);
                            assert(before.requests_cache@.contains_key(key));
                            let (a, b) = choose|a: int, b: int|
                                0 <= a < n0 && 0 <= b < n0 && key as int == pair_key(a, b);
                            lemma_pair_key_injective(a, b, m as int, u as int);
                            assert(before.symbols@.contains_key(q.method));
                            assert(before.symbols@.contains_key(q.url));
                            assert(before.request_key(q) == rk);
                        } else {
                            assert(before.requests_cache@.contains_key(rk));
                            let (a, b) = choose|a: int, b: int|
                                0 <= a < n0 && 0 <= b < n0 && rk as int == pair_key(a, b);
                            lemma_pair_key_injective(a, b, qa, qb);
                            assert(before.symbols@.contains_key(q.method));
                            assert(before.symbols@.contains_key(q.url));
                            assert(before.request_key(q) == rk);
                        }
                    }
                }
            }
            assert(self.requests() =~= before.requests().insert(r@, id)) by {
                assert forall|q: RequestView| #[trigger] self.has_request(q) implies self.requests()[q]
                    == before.requests().insert(r@, id)[q] by {
                    if q != r@ {
                        assert(before.has_request(q));
                        assert(before.request_key(q) == self.request_key(q));
                        let qa = self.symbols@[q.method] as int;
                        let qb = self.symbols@[q.url] as int;
                        if self.request_key(q) == key {
                            lemma_pair_key_injective(qa, qb, m as int, u as int);
                        }
                    }
                }
            }
        }
    }
}

impl BatchCache {
    /// The key of the user agent `ua`, where the cache knows it.
    pub fn lookup_useragent(&self, ua: &Useragent) -> (res: Option<i32>)
        ensures
            match res {
                Some(id) => self.useragents().contains_key(ua@) && self.useragents()[ua@] == id,
                None => !self.useragents().contains_key(ua@),
            },
    {
        match self.useragents_cache.get(ua.value.as_str()) {
            Some(id) => Some(*id),
            None => None,
        }
    }

    /// Records that the store gave the user agent `ua` the key `id`.
    pub fn record_useragent(&mut self, ua: &Useragent, id: i32)
        requires
            old(self).wf(),
        ensures
            final(self).wf(),
            final(self).useragents() == old(self).useragents().insert(ua@, id),
            final(self).requests() == old(self).requests(),
            final(self).referrers() == old(self).referrers(),
            final(self).users() == old(self).users(),
    {
        let ghost before = *self;
        self.useragents_cache.insert(copy_text(&ua.value), id);
        assert(self.requests() =~= before.requests());
        assert(self.users() =~= before.users());
    }

    /// The key of the referrer `r`, where the cache knows it.
    pub fn lookup_referrer(&self, r: &Referrer) -> (res: Option<i32>)
        ensures
            match res {
                Some(id) => self.referrers().contains_key(r@) && self.referrers()[r@] == id,
                None => !self.referrers().contains_key(r@),
            },
    {
        match self.referrer_cache.get(r.url.as_str()) {
            Some(id) => Some(*id),
            None => None,
        }
    }

    /// Records that the store gave the referrer `r` the key `id`.
    pub fn record_referrer(&mut self, r: &Referrer, id: i32)
        requires
            old(self).wf(),
        ensures
            final(self).wf(),
            final(self).referrers() == old(self).referrers().insert(r@, id),
            final(self).requests() == old(self).requests(),
            final(self).useragents() == old(self).useragents(),
            final(self).users() == old(self).users(),
    {
        let ghost before = *self;
        self.referrer_cache.insert(copy_text(&r.url), id);
        assert(self.requests() =~= before.requests());
        assert(self.users() =~= before.users());
    }

    /// The key of the user with `hash` and the user agent key `useragent_id`, where
    /// the cache knows it.
    pub fn lookup_user(&self, hash: i64, useragent_id: Option<i32>) -> (res: Option<i32>)
        ensures
            match res {
                Some(id) => self.users().contains_key((hash, useragent_id)) && self.users()[(hash, useragent_id)] == id,
                None => !self.users().contains_key((hash, useragent_id)),
            },
    {
        match self.users_cache.get(&user_key_exec(hash, useragent_id)) {
            Some(id) => Some(*id),
            None => None,
        }
    }

    /// Records that the store gave the user with `hash` and the user agent key
    /// `useragent_id` the key `id`.
    pub fn record_user(&mut self, hash: i64, useragent_id: Option<i32>, id: i32)
        requires
            old(self).wf(),
        ensures
            final(self).wf(),
            final(self).users() == old(self).users().insert((hash, useragent_id), id),
            final(self).requests() == old(self).requests(),
            final(self).useragents() == old(self).useragents(),
            final(self).referrers() == old(self).referrers(),
    {
        let ghost before = *self;
        let key = user_key_exec(hash, useragent_id);
        self.users_cache.insert(key, id);
        assert(self.requests() =~= before.requests());
        assert(self.users() =~= before.users().insert((hash, useragent_id), id)) by {
            assert forall|v: (i64, Option<i32>)| #[trigger] self.users_cache@.contains_key(user_key(v.0, v.1))
                && v != (hash, useragent_id) implies user_key(v.0, v.1) != key by {
                if user_key(v.0, v.1) == key {
                    lemma_user_key_injective(v.0, v.1, hash, useragent_id);
                }
            }
        }
    }

    /// What the persister does next for the entry `e`: insert the first of its
    /// dimension values that the cache does not know (request, user agent, user,
    /// referrer), or, once it knows them all, insert the entry row.
    pub fn next_step(&self, e: &LogEntry) -> (r: Step)
        requires
            self.wf(),
        ensures
            next_step_is(self, e@, r),
    {
        let request_id = match self.lookup_request(&e.request) {
            Some(id) => id,
            None => return Step::InsertRequest(e.request.copy()),
        };
        let useragent_id = match &e.user.useragent {
            None => None,
            Some(ua) => match self.lookup_useragent(ua) {
                Some(id) => Some(id),
                None => return Step::InsertUseragent(Useragent { value: copy_text(&ua.value) }),
            },
        };
        let user_id = match self.lookup_user(e.user.hash, useragent_id) {
            Some(id) => id,
            None => return Step::InsertUser(e.user.hash, useragent_id),
        };
        let referrer_id = match &e.referrer {
            None => None,
            Some(rf) => match self.lookup_referrer(rf) {
                Some(id) => Some(id),
                None => return Step::InsertReferrer(Referrer { url: copy_text(&rf.url) }),
            },
        };
        Step::InsertEntry(Entry { timestamp: e.timestamp, request_id, user_id, referrer_id })
    }

    /// Seeds the cache with the dimension rows that the store holds.
    pub fn populate(&mut self, rows: &StoredRows)
        requires
            old(self).wf(),
        ensures
            final(self).wf(),
            final(self).requests() == with_rows(old(self).requests(), request_rows(rows.requests@)),
            final(self).useragents() == with_rows(old(self).useragents(), useragent_rows(rows.useragents@)),
            final(self).referrers() == with_rows(old(self).referrers(), referrer_rows(rows.referrers@)),
            final(self).users() == with_rows(old(self).users(), user_rows(rows.users@)),
    {
        self.populate_requests(&rows.requests);
        self.populate_useragents(&rows.useragents);
        self.populate_referrers(&rows.referrers);
        self.populate_users(&rows.users);
    }

    /// Adds the rows that the store holds for requests, with their keys.
    pub fn populate_requests(&mut self, rows: &Vec<(Request, i32)>)
        requires
            old(self).wf(),
        ensures
            final(self).wf(),
            final(self).requests() == with_rows(old(self).requests(), request_rows(rows@)),
            final(self).useragents() == old(self).useragents(),
            final(self).referrers() == old(self).referrers(),
            final(self).users() == old(self).users(),
    {
        let ghost start = self.requests();
        let mut i: usize = 0;
        while i < rows.len()
            invariant
                self.wf(),
                i <= rows.len(),
                self.requests() == with_rows(start, request_rows(rows@).take(i as int)),
                self.useragents() == old(self).useragents(),
                self.referrers() == old(self).referrers(),
                self.users() == old(self).users(),
            decreases rows.len() - i,
        {
            self.record_request(&rows[i].0, rows[i].1);
            assert(request_rows(rows@).take(i + 1).drop_last() =~= request_rows(rows@).take(i as int));
            i += 1;
        }
        assert(request_rows(rows@).take(i as int) =~= request_rows(rows@));
    }

    /// Adds the rows that the store holds for user agents, with their keys.
    pub fn populate_useragents(&mut self, rows: &Vec<(Useragent, i32)>)
        requires
            old(self).wf(),
        ensures
            final(self).wf(),
            final(self).useragents() == with_rows(old(self).useragents(), useragent_rows(rows@)),
            final(self).requests() == old(self).requests(),
            final(self).referrers() == old(self).referrers(),
            final(self).users() == old(self).users(),
    {
        let ghost start = self.useragents();
        let mut i: usize = 0;
        while i < rows.len()
            invariant
                self.wf(),
                i <= rows.len(),
                self.useragents() == with_rows(start, useragent_rows(rows@).take(i as int)),
                self.requests() == old(self).requests(),
                self.referrers() == old(self).referrers(),
                self.users() == old(self).users(),
            decreases rows.len() - i,
        {
            self.record_useragent(&rows[i].0, rows[i].1);
            assert(useragent_rows(rows@).take(i + 1).drop_last() =~= useragent_rows(rows@).take(i as int));
            i += 1;
        }
        assert(useragent_rows(rows@).take(i as int) =~= useragent_rows(rows@));
    }

    /// Adds the rows that the store holds for referrers, with their keys.
    pub fn populate_referrers(&mut self, rows: &Vec<(Referrer, i32)>)
        requires
            old(self).wf(),
        ensures
            final(self).wf(),
            final(self).referrers() == with_rows(old(self).referrers(), referrer_rows(rows@)),
            final(self).requests() == old(self).requests(),
            final(self).useragents() == old(self).useragents(),
            final(self).users() == old(self).users(),
    {
        let ghost start = self.referrers();
        let mut i: usize = 0;
        while i < rows.len()
            invariant
                self.wf(),
                i <= rows.len(),
                self.referrers() == with_rows(start, referrer_rows(rows@).take(i as int)),
                self.requests() == old(self).requests(),
                self.useragents() == old(self).useragents(),
                self.users() == old(self).users(),
            decreases rows.len() - i,
        {
            self.record_referrer(&rows[i].0, rows[i].1);
            assert(referrer_rows(rows@).take(i + 1).drop_last() =~= referrer_rows(rows@).take(i as int));
            i += 1;
        }
        assert(referrer_rows(rows@).take(i as int) =~= referrer_rows(rows@));
    }

    /// Adds the rows that the store holds for users: hash, user agent key and key.
    pub fn populate_users(&mut self, rows: &Vec<(i64, Option<i32>, i32)>)
        requires
            old(self).wf(),
        ensures
            final(self).wf(),
            final(self).users() == with_rows(old(self).users(), user_rows(rows@)),
            final(self).requests() == old(self).requests(),
            final(self).useragents() == old(self).useragents(),
            final(self).referrers() == old(self).referrers(),
    {
        let ghost start = self.users();
        let mut i: usize = 0;
        while i < rows.len()
            invariant
                self.wf(),
                i <= rows.len(),
                self.users() == with_rows(start, user_rows(rows@).take(i as int)),
                self.requests() == old(self).requests(),
                self.useragents() == old(self).useragents(),
                self.referrers() == old(self).referrers(),
            decreases rows.len() - i,
        {
            let (hash, useragent_id, id) = rows[i];
            self.record_user(hash, useragent_id, id);
            assert(user_rows(rows@).take(i + 1).drop_last() =~= user_rows(rows@).take(i as int));
            i += 1;
        }
        assert(user_rows(rows@).take(i as int) =~= user_rows(rows@));
    }
}

/// The dimension rows of the store, each with its key.
pub struct StoredRows {
    pub requests: Vec<(Request, i32)>,
    pub useragents: Vec<(Useragent, i32)>,
    pub referrers: Vec<(Referrer, i32)>,
    /// Hash, user agent key and key of each user.
    pub users: Vec<(i64, Option<i32>, i32)>,
}

/// What the persister asks of the store for one entry.
pub enum Step {
    /// Insert this request and record the key it gets.
    InsertRequest(Request),
    /// Insert this user agent and record the key it gets.
    InsertUseragent(Useragent),
    /// Insert the user with this hash and user agent key, and record the key it gets.
    InsertUser(i64, Option<i32>),
    /// Insert this referrer and record the key it gets.
    InsertReferrer(Referrer),
    /// Insert this entry row, unless the store holds one for its time, request and user.
    InsertEntry(Entry),
}

/// The key of the user agent of `e`, as the cache knows it.
pub open spec fn useragent_id_of(c: &BatchCache, e: LogEntryView) -> Option<i32> {
    match e.user.useragent {
        Some(ua) => Some(c.useragents()[ua]),
        None => None,
    }
}

/// The entry row of `e`, with the keys that the cache knows.
pub open spec fn entry_row(c: &BatchCache, e: LogEntryView) -> Entry {
    Entry {
        timestamp: e.timestamp,
        request_id: c.requests()[e.request],
        user_id: c.users()[(e.user.hash, useragent_id_of(c, e))],
        referrer_id: match e.referrer {
            Some(rf) => Some(c.referrers()[rf]),
            None => None,
        },
    }
}

/// Whether `s` is what the persister does next for `e` with the cache `c`.
pub open spec fn next_step_is(c: &BatchCache, e: LogEntryView, s: Step) -> bool {
    if !c.requests().contains_key(e.request) {
        s matches Step::InsertRequest(q) && q@ == e.request
    } else if e.user.useragent is Some && !c.useragents().contains_key(e.user.useragent->Some_0) {
        s matches Step::InsertUseragent(u) && u@ == e.user.useragent->Some_0
    } else if !c.users().contains_key((e.user.hash, useragent_id_of(c, e))) {
        s == Step::InsertUser(e.user.hash, useragent_id_of(c, e))
    } else if e.referrer is Some && !c.referrers().contains_key(e.referrer->Some_0) {
        s matches Step::InsertReferrer(rf) && rf@ == e.referrer->Some_0
    } else {
        s == Step::InsertEntry(entry_row(c, e))
    }
}

/// The persister asks the store to insert a dimension value only where the cache
/// holds no key for it, so no value is inserted twice while the cache knows it.
pub proof fn lemma_inserts_only_unknown(c: &BatchCache, e: LogEntryView, s: Step)
    requires
        next_step_is(c, e, s),
    ensures
        s matches Step::InsertRequest(q) ==> !c.requests().contains_key(q@),
        s matches Step::InsertUseragent(u) ==> !c.useragents().contains_key(u@),
        s matches Step::InsertUser(h, ua) ==> !c.users().contains_key((h, ua)),
        s matches Step::InsertReferrer(rf) ==> !c.referrers().contains_key(rf@),
{
}

/// An entry row refers only to rows the store gave keys for: the keys of the
/// entry's request, user and referrer (none where it has no referrer), as cached.
pub proof fn lemma_entry_refers_to_known_rows(c: &BatchCache, e: LogEntryView, row: Entry)
    requires
        next_step_is(c, e, Step::InsertEntry(row)),
    ensures
        row.timestamp == e.timestamp,
        c.requests().contains_key(e.request) && row.request_id == c.requests()[e.request],
        e.user.useragent is Some ==> c.useragents().contains_key(e.user.useragent->Some_0),
        c.users().contains_key((e.user.hash, useragent_id_of(c, e))) && row.user_id == c.users()[(
            e.user.hash,
            useragent_id_of(c, e),
        )],
        e.referrer is Some ==> c.referrers().contains_key(e.referrer->Some_0) && row.referrer_id
            == Some(c.referrers()[e.referrer->Some_0]),
        e.referrer is None ==> row.referrer_id is None,
{
}

/// An absent user agent or referrer is never inserted, and an absent referrer
/// leaves the entry row without a referrer key.
pub proof fn lemma_absent_values_not_stored(c: &BatchCache, e: LogEntryView, s: Step)
    requires
        next_step_is(c, e, s),
    ensures
        e.user.useragent is None ==> !(s is InsertUseragent),
        e.referrer is None ==> !(s is InsertReferrer),
        e.referrer is None ==> (s matches Step::InsertEntry(row) ==> row.referrer_id is None),
{
}

/// Interning a request twice: once the key `id` of `q` is recorded, the cache gives
/// `id` for it and the persister does not ask to insert `q` again.
pub proof fn lemma_intern_twice(
    before: &BatchCache,
    after: &BatchCache,
    q: RequestView,
    id: i32,
    e: LogEntryView,
    s: Step,
)
    requires
        after.requests() == before.requests().insert(q, id),
        e.request == q,
        next_step_is(after, e, s),
    ensures
        after.requests().contains_key(q) && after.requests()[q] == id,
        !(s is InsertRequest),
{
}

/// Replaying an entry whose request, user agent, user and referrer the cache
/// already holds (as after populating it from the store) inserts no dimension row:
/// the persister goes straight to the entry row, with the known keys.
pub proof fn lemma_replay_inserts_entry_only(c: &BatchCache, e: LogEntryView, s: Step)
    requires
        c.requests().contains_key(e.request),
        e.user.useragent is Some ==> c.useragents().contains_key(e.user.useragent->Some_0),
        c.users().contains_key((e.user.hash, useragent_id_of(c, e))),
        e.referrer is Some ==> c.referrers().contains_key(e.referrer->Some_0),
        next_step_is(c, e, s),
    ensures
        s == Step::InsertEntry(entry_row(c, e)),
{
}

/// `m` after recording the rows `rows` in order; a later row wins.
pub open spec fn with_rows<K>(m: Map<K, i32>, rows: Seq<(K, i32)>) -> Map<K, i32>
    decreases rows.len(),
{
    if rows.len() == 0 {
        m
    } else {
        with_rows(m, rows.drop_last()).insert(rows.last().0, rows.last().1)
    }
}

pub open spec fn request_rows(rows: Seq<(Request, i32)>) -> Seq<(RequestView, i32)> {
    rows.map_values(|r: (Request, i32)| (r.0@, r.1))
}

pub open spec fn useragent_rows(rows: Seq<(Useragent, i32)>) -> Seq<(Seq<char>, i32)> {
    rows.map_values(|r: (Useragent, i32)| (r.0@, r.1))
}

pub open spec fn referrer_rows(rows: Seq<(Referrer, i32)>) -> Seq<(Seq<char>, i32)> {
    rows.map_values(|r: (Referrer, i32)| (r.0@, r.1))
}

pub open spec fn user_rows(rows: Seq<(i64, Option<i32>, i32)>) -> Seq<((i64, Option<i32>), i32)> {
    rows.map_values(|r: (i64, Option<i32>, i32)| ((r.0, r.1), r.2))
}

fn user_key_exec(hash: i64, useragent_id: Option<i32>) -> (r: u128)
    ensures
        r == user_key(hash, useragent_id),
{
    let a = (hash as i128 + 0x8000_0000_0000_0000) as u64;
    let b: u64 = match useragent_id {
        None => 0,
        Some(id) => (id as i64 + 0x8000_0001) as u64,
    };
    pair_key_exec(a, b)
}

proof fn lemma_user_key_injective(h1: i64, u1: Option<i32>, h2: i64, u2: Option<i32>)
    requires
        user_key(h1, u1) == user_key(h2, u2),
    ensures
        h1 == h2,
        u1 == u2,
{
    let b1: int = match u1 {
        None => 0,
        Some(id) => id + 0x8000_0001,
    };
    let b2: int = match u2 {
        None => 0,
        Some(id) => id + 0x8000_0001,
    };
    let a1 = h1 + 0x8000_0000_0000_0000;
    let a2 = h2 + 0x8000_0000_0000_0000;
    assert(0 <= pair_key(a1, b1) < 0x1_0000_0000_0000_0000_0000_0000_0000_0000) by (nonlinear_arith)
        requires
            0 <= a1 < 0x1_0000_0000_0000_0000,
            0 <= b1 < 0x1_0000_0000_0000_0000,
    ;
    assert(0 <= pair_key(a2, b2) < 0x1_0000_0000_0000_0000_0000_0000_0000_0000) by (nonlinear_arith)
        requires
            0 <= a2 < 0x1_0000_0000_0000_0000,
            0 <= b2 < 0x1_0000_0000_0000_0000,
    ;
    lemma_pair_key_injective(a1, b1, a2, b2);
}

/// The cache key of the user with `hash` whose user agent has the key `useragent_id`.
pub open spec fn user_key(hash: i64, useragent_id: Option<i32>) -> u128 {
    pair_key(
        hash + 0x8000_0000_0000_0000,
        match useragent_id {
            None => 0,
            Some(id) => id + 0x8000_0001,
        },
    ) as u128
}

} // verus!
