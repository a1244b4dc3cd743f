//! Reading a combined log line:
//! `IP IDENT AUTH [DATE] "METHOD URL PROTO" STATUS BYTES "REFERRER" "USERAGENT"`.

use vstd::prelude::*;
use vstd::string::StrSliceExecFns;
use vstd::string::StringExecFns;
use crate::models::{copy_text, LogEntry, LogEntryView, Referrer, Request, RequestView, User, UserView, Useragent};

verus! {

/// Whether `c` is an ASCII decimal digit.
pub open spec fn is_digit(c: char) -> bool {
    '0' <= c && c <= '9'
}

/// The characters that may form field `k` of a combined log line.
/// The fields are, in order: client address, identity, user, date, method,
/// URL, protocol, status, size, referrer and user agent.
pub open spec fn in_class(k: int, c: char) -> bool {
    if k <= 2 {
        c != ' '
    } else if k == 3 {
        c != ']'
    } else if k <= 6 {
        c != ' ' && c != '"'
    } else if k <= 8 {
        is_digit(c)
    } else {
        c != '"'
    }
}

/// The fields that must hold at least one character; referrer and user agent may be empty.
pub open spec fn needs_content(k: int) -> bool {
    k <= 8
}

/// The literal text that follows field `k`.
pub open spec fn terminator(k: int) -> Seq<char> {
    if k <= 1 {
        seq![' ']
    } else if k == 2 {
        seq![' ', '[']
    } else if k == 3 {
        seq![']', ' ', '"']
    } else if k <= 5 {
        seq![' ']
    } else if k == 6 {
        seq!['"', ' ']
    } else if k == 7 {
        seq![' ']
    } else if k == 8 {
        seq![' ', '"']
    } else if k == 9 {
        seq!['"', ' ', '"']
    } else {
        seq!['"']
    }
}

pub open spec fn field_ok(k: int, s: Seq<char>) -> bool {
    &&& needs_content(k) ==> s.len() > 0
    &&& forall|i: int| 0 <= i < s.len() ==> in_class(k, #[trigger] s[i])
}

pub open spec fn starts_with(s: Seq<char>, p: Seq<char>) -> bool {
    p.len() <= s.len() && s.subrange(0, p.len() as int) == p
}

/// Whether the text of field `k` may end at `j` when it starts at `pos`:
/// the characters in between belong to the field and its terminator follows.
pub open spec fn field_ends_at(line: Seq<char>, k: int, pos: int, j: int) -> bool {
    &&& pos <= j <= line.len()
    &&& field_ok(k, line.subrange(pos, j))
    &&& starts_with(line.subrange(j, line.len() as int), terminator(k))
}

/// The number of fields in a combined log line.
pub const FIELD_COUNT: usize = 11;

pub open spec fn fields_ok(f: Seq<Seq<char>>) -> bool {
    &&& f.len() == FIELD_COUNT
    &&& forall|k: int| 0 <= k < FIELD_COUNT ==> field_ok(k, #[trigger] f[k])
}

/// The text of fields `k..` of `f`, each followed by its terminator.
pub open spec fn layout_from(f: Seq<Seq<char>>, k: int) -> Seq<char>
    decreases FIELD_COUNT - k,
{
    if 0 <= k < FIELD_COUNT {
        f[k] + terminator(k) + layout_from(f, k + 1)
    } else {
        Seq::empty()
    }
}

/// The text of a combined log line made of the fields `f`, without anything after it.
pub open spec fn layout(f: Seq<Seq<char>>) -> Seq<char> {
    layout_from(f, 0)
}

/// Whether the fields `f` are a reading of `line`: the line starts with their layout.
/// Text after the final quote is allowed and ignored.
pub open spec fn frames(f: Seq<Seq<char>>, line: Seq<char>) -> bool {
    fields_ok(f) && starts_with(line, layout(f))
}

/// The fields of a combined log line, where it has a reading.
pub open spec fn line_fields(line: Seq<char>) -> Option<Seq<Seq<char>>> {
    if exists|f: Seq<Seq<char>>| frames(f, line) {
        Some(choose|f: Seq<Seq<char>>| frames(f, line))
    } else {
        None
    }
}

proof fn lemma_starts_with_split(s: Seq<char>, a: Seq<char>, b: Seq<char>)
    requires
        starts_with(s, a + b),
    ensures
        starts_with(s, a),
        starts_with(s.subrange(a.len() as int, s.len() as int), b),
{
    let p = s.subrange(0, (a + b).len() as int);
    assert(p == a + b);
    assert(s.subrange(0, a.len() as int) =~= p.subrange(0, a.len() as int));
    assert(p.subrange(0, a.len() as int) =~= a);
    assert(s.subrange(a.len() as int, s.len() as int).subrange(0, b.len() as int) =~= p.subrange(
        a.len() as int,
        p.len() as int,
    ));
    assert(p.subrange(a.len() as int, p.len() as int) =~= b);
}

proof fn lemma_starts_with_join(s: Seq<char>, a: Seq<char>, b: Seq<char>)
    requires
        starts_with(s, a),
        starts_with(s.subrange(a.len() as int, s.len() as int), b),
    ensures
        starts_with(s, a + b),
{
    assert(s.subrange(0, (a + b).len() as int) =~= a + b) by {
        assert forall|i: int| 0 <= i < (a + b).len() implies s.subrange(
            0,
            (a + b).len() as int,
        )[i] == (a + b)[i] by {
            if i < a.len() {
                assert(s.subrange(0, a.len() as int)[i] == a[i]);
            } else {
                assert(s.subrange(a.len() as int, s.len() as int).subrange(
                    0,
                    b.len() as int,
                )[i - a.len()] == b[i - a.len()]);
            }
        }
    }
}

/// The text of field `k` of `line` under the bounds `b`.
pub open spec fn bounded_field(line: Seq<char>, b: Seq<(usize, usize)>, k: int) -> Seq<char> {
    line.subrange(b[k].0 as int, b[k].1 as int)
}

/// The bounds `b` of the fields `k..` are consecutive: each field ends where its
/// terminator starts, and the next field starts after the terminator.
pub open spec fn chained(line: Seq<char>, b: Seq<(usize, usize)>, k: int) -> bool {
    &&& 0 <= k <= b.len()
    &&& forall|i: int|
        k <= i < b.len() ==> field_ends_at(line, i, #[trigger] b[i].0 as int, b[i].1 as int)
    &&& forall|i: int|
        k <= i < b.len() - 1 ==> #[trigger] b[i + 1].0 == b[i].1 + terminator(i).len()
}

proof fn lemma_chained_layout(line: Seq<char>, b: Seq<(usize, usize)>, f: Seq<Seq<char>>, k: int)
    requires
        b.len() == FIELD_COUNT,
        f.len() == FIELD_COUNT,
        chained(line, b, 0),
        0 <= k <= FIELD_COUNT,
        forall|i: int| 0 <= i < FIELD_COUNT ==> #[trigger] f[i] == bounded_field(line, b, i),
    ensures
        k < FIELD_COUNT ==> starts_with(
            line.subrange(b[k].0 as int, line.len() as int),
            layout_from(f, k),
        ),
    decreases FIELD_COUNT - k,
{
    if k < FIELD_COUNT {
        lemma_chained_layout(line, b, f, k + 1);
        let s = line.subrange(b[k].0 as int, line.len() as int);
        let fk = f[k];
        let t = terminator(k);
        assert(field_ends_at(line, k, b[k].0 as int, b[k].1 as int));
        assert(starts_with(s, fk)) by {
            assert(s.subrange(0, fk.len() as int) =~= fk);
        }
        let s2 = s.subrange(fk.len() as int, s.len() as int);
        assert(s2 =~= line.subrange(b[k].1 as int, line.len() as int));
        let rest = layout_from(f, k + 1);
        if k + 1 < FIELD_COUNT {
            assert(starts_with(s2.subrange(t.len() as int, s2.len() as int), rest)) by {
                assert(s2.subrange(t.len() as int, s2.len() as int) =~= line.subrange(
                    b[k + 1].0 as int,
                    line.len() as int,
                ));
            }
        } else {
            assert(starts_with(s2.subrange(t.len() as int, s2.len() as int), rest)) by {
                assert(rest =~= Seq::<char>::empty());
                assert(s2.subrange(t.len() as int, s2.len() as int).subrange(0, 0) =~= rest);
            }
        }
        lemma_starts_with_join(s2, t, rest);
        lemma_starts_with_join(s, fk, t + rest);
        assert(fk + t + rest =~= fk + (t + rest));
    }
}

fn class_contains(k: usize, c: char) -> (r: bool)
    ensures
        r == in_class(k as int, c),
{
    if k <= 2 {
        c != ' '
    } else if k == 3 {
        c != ']'
    } else if k <= 6 {
        c != ' ' && c != '"'
    } else if k <= 8 {
        '0' <= c && c <= '9'
    } else {
        c != '"'
    }
}

fn terminator_of(k: usize) -> (r: &'static str)
    ensures
        r@ == terminator(k as int),
{
    proof {
        reveal_strlit(" ");
        reveal_strlit(" [");
        reveal_strlit("] \"");
        reveal_strlit("\" ");
        reveal_strlit(" \"");
        reveal_strlit("\" \"");
        reveal_strlit("\"");
    }
    if k <= 1 {
        assert(" "@ =~= terminator(k as int));
        " "
    } else if k == 2 {
        assert(" ["@ =~= terminator(k as int));
        " ["
    } else if k == 3 {
        assert("] \""@ =~= terminator(k as int));
        "] \""
    } else if k <= 5 {
        assert(" "@ =~= terminator(k as int));
        " "
    } else if k == 6 {
        assert("\" "@ =~= terminator(k as int));
        "\" "
    } else if k == 7 {
        assert(" "@ =~= terminator(k as int));
        " "
    } else if k == 8 {
        assert(" \""@ =~= terminator(k as int));
        " \""
    } else if k == 9 {
        assert("\" \""@ =~= terminator(k as int));
        "\" \""
    } else {
        assert("\""@ =~= terminator(k as int));
        "\""
    }
}

/// The characters of `s`, in order.
pub fn chars_of(s: &str) -> (r: Vec<char>)
    ensures
        r@ == s@,
{
    let mut out: Vec<char> = Vec::new();
    for c in it: s.chars()
        invariant
            it.seq() == s@,
            out@ == it.seq().take(it.index() as int),
    {
        out.push(c);
    }
    assert(out@ =~= s@);
    out
}

fn terminator_at(line: &Vec<char>, j: usize, k: usize) -> (r: bool)
    requires
        j <= line.len(),
    ensures
        r == starts_with(line@.subrange(j as int, line.len() as int), terminator(k as int)),
{
    let t = terminator_of(k);
    let t_chars = chars_of(t);
    let rest = line.len() - j;
    if t_chars.len() > rest {
        return false;
    }
    let ghost tail = line@.subrange(j as int, line.len() as int);
    let mut i: usize = 0;
    while i < t_chars.len()
        invariant
            i <= t_chars.len() <= rest,
            rest == line.len() - j,
            t_chars@ == terminator(k as int),
            tail == line@.subrange(j as int, line.len() as int),
            forall|m: int| 0 <= m < i ==> tail[m] == t_chars@[m],
        decreases t_chars.len() - i,
    {
        if line[j + i] != t_chars[i] {
            assert(tail.subrange(0, t_chars@.len() as int)[i as int] != t_chars@[i as int]);
            return false;
        }
        i += 1;
    }
    assert(tail.subrange(0, t_chars@.len() as int) =~= t_chars@);
    true
}

/// Finds where field `k`, starting at `pos`, ends: the field's text is the longest
/// run of its characters from `pos`, and no other end is possible.
fn scan_field(line: &Vec<char>, pos: usize, k: usize) -> (r: Option<usize>)
    requires
        pos <= line.len(),
        k <= 10,
    ensures
        match r {
            Some(j) => field_ends_at(line@, k as int, pos as int, j as int) && forall|j2: int|
                #[trigger] field_ends_at(line@, k as int, pos as int, j2) ==> j2 == j,
            None => forall|j2: int| !#[trigger] field_ends_at(line@, k as int, pos as int, j2),
        },
{
    let mut j = pos;
    while j < line.len() && class_contains(k, line[j])
        invariant
            pos <= j <= line.len(),
            forall|m: int| pos <= m < j ==> in_class(k as int, #[trigger] line@[m]),
        decreases line.len() - j,
    {
        j += 1;
    }
    assert(terminator(k as int).len() > 0 && !in_class(k as int, terminator(k as int)[0]));
    assert forall|j2: int| #[trigger] field_ends_at(line@, k as int, pos as int, j2) implies j2 == j by {
        if j2 < j {
            let t = line@.subrange(j2, line.len() as int);
            assert(t.subrange(0, terminator(k as int).len() as int)[0] == t[0]);
            assert(in_class(k as int, line@[j2]));
        } else if j2 > j {
            assert(line@.subrange(pos as int, j2)[j - pos] == line@[j as int]);
        }
    }
    let ok = (!needs_content_exec(k) || j > pos) && terminator_at(line, j, k);
    if ok {
        assert(field_ok(k as int, line@.subrange(pos as int, j as int)));
        Some(j)
    } else {
        None
    }
}

fn needs_content_exec(k: usize) -> (r: bool)
    ensures
        r == needs_content(k as int),
{
    k <= 8
}

proof fn lemma_field_end_unique(line: Seq<char>, k: int, pos: int, j1: int, j2: int)
    requires
        0 <= k < FIELD_COUNT,
        0 <= pos,
        field_ends_at(line, k, pos, j1),
        field_ends_at(line, k, pos, j2),
    ensures
        j1 == j2,
{
    assert(terminator(k).len() > 0 && !in_class(k, terminator(k)[0]));
    if j1 < j2 {
        assert(line.subrange(j1, line.len() as int).subrange(0, terminator(k).len() as int)[0]
            == line[j1]);
        assert(line.subrange(pos, j2)[j1 - pos] == line[j1]);
    } else if j2 < j1 {
        assert(line.subrange(j2, line.len() as int).subrange(0, terminator(k).len() as int)[0]
            == line[j2]);
        assert(line.subrange(pos, j1)[j2 - pos] == line[j2]);
    }
}

proof fn lemma_layout_unique_from(f: Seq<Seq<char>>, g: Seq<Seq<char>>, s: Seq<char>, k: int)
    requires
        fields_ok(f),
        fields_ok(g),
        0 <= k <= FIELD_COUNT,
        starts_with(s, layout_from(f, k)),
        starts_with(s, layout_from(g, k)),
    ensures
        forall|i: int| k <= i < FIELD_COUNT ==> f[i] == g[i],
    decreases FIELD_COUNT - k,
{
    if k < FIELD_COUNT {
        let t = terminator(k);
        assert(f[k] + t + layout_from(f, k + 1) =~= f[k] + (t + layout_from(f, k + 1)));
        assert(g[k] + t + layout_from(g, k + 1) =~= g[k] + (t + layout_from(g, k + 1)));
        lemma_starts_with_split(s, f[k], t + layout_from(f, k + 1));
        lemma_starts_with_split(s, g[k], t + layout_from(g, k + 1));
        let sf = s.subrange(f[k].len() as int, s.len() as int);
        let sg = s.subrange(g[k].len() as int, s.len() as int);
        lemma_starts_with_split(sf, t, layout_from(f, k + 1));
        lemma_starts_with_split(sg, t, layout_from(g, k + 1));
        assert(s.subrange(0, f[k].len() as int) =~= f[k]);
        assert(s.subrange(0, g[k].len() as int) =~= g[k]);
        assert(field_ends_at(s, k, 0, f[k].len() as int)) by {
            assert(sf =~= s.subrange(f[k].len() as int, s.len() as int));
        }
        assert(field_ends_at(s, k, 0, g[k].len() as int));
        lemma_field_end_unique(s, k, 0, f[k].len() as int, g[k].len() as int);
        assert(f[k] =~= g[k]);
        let s2 = sf.subrange(t.len() as int, sf.len() as int);
        assert(sg.subrange(t.len() as int, sg.len() as int) == s2);
        lemma_layout_unique_from(f, g, s2, k + 1);
    }
}

/// A combined log line has at most one reading: the fields end where the first
/// character outside their class stands.
pub proof fn lemma_reading_unique(f: Seq<Seq<char>>, g: Seq<Seq<char>>, line: Seq<char>)
    requires
        frames(f, line),
        frames(g, line),
    ensures
        f == g,
{
    lemma_layout_unique_from(f, g, line, 0);
    assert(f =~= g);
}

/// Writing fields out as a combined log line and reading the line back gives the
/// same fields, whatever follows the line. Fields hold no character that the
/// grammar reserves at their place (a space, a quote, a bracket), as `fields_ok` states.
pub proof fn lemma_read_written_line(f: Seq<Seq<char>>, rest: Seq<char>)
    requires
        fields_ok(f),
    ensures
        line_fields(layout(f) + rest) == Some(f),
{
    let line = layout(f) + rest;
    assert(line.subrange(0, layout(f).len() as int) =~= layout(f));
    assert(frames(f, line));
    let g = choose|g: Seq<Seq<char>>| frames(g, line);
    lemma_reading_unique(f, g, line);
}

/// Reads the fields of a combined log line, each as the bounds of its text.
fn scan_line(line: &Vec<char>) -> (r: Option<Vec<(usize, usize)>>)
    ensures
        match r {
            Some(b) => b.len() == FIELD_COUNT && b@[0].0 == 0 && chained(line@, b@, 0) && forall|g: Seq<Seq<char>>|
                frames(g, line@) ==> forall|i: int|
                    0 <= i < FIELD_COUNT ==> #[trigger] g[i] == bounded_field(line@, b@, i),
            None => forall|g: Seq<Seq<char>>| !frames(g, line@),
        },
{
    let mut bounds: Vec<(usize, usize)> = Vec::new();
    let mut pos: usize = 0;
    let mut k: usize = 0;
    assert(line@.subrange(0, line.len() as int) =~= line@);
    while k < FIELD_COUNT
        invariant
            k <= FIELD_COUNT,
            bounds.len() == k,
            pos <= line.len(),
            chained(line@, bounds@, 0),
            k == 0 ==> pos == 0,
            k > 0 ==> bounds@[0].0 == 0,
            k > 0 ==> pos == bounds@[k - 1].1 + terminator(k - 1).len(),
            forall|g: Seq<Seq<char>>|
                frames(g, line@) ==> {
                    &&& forall|i: int|
                        0 <= i < k ==> #[trigger] g[i] == bounded_field(line@, bounds@, i)
                    &&& starts_with(line@.subrange(pos as int, line.len() as int), layout_from(g, k as int))
                },
        decreases FIELD_COUNT - k,
    {
        proof {
            assert forall|g: Seq<Seq<char>>| frames(g, line@) implies field_ends_at(
                line@,
                k as int,
                pos as int,
                pos + g[k as int].len(),
            ) && line@.subrange(pos as int, pos + g[k as int].len()) == g[k as int] && starts_with(
                line@.subrange(pos + g[k as int].len() + terminator(k as int).len(), line.len() as int),
                layout_from(g, k + 1),
            ) by {
                let s = line@.subrange(pos as int, line.len() as int);
                let gk = g[k as int];
                let t = terminator(k as int);
                assert(layout_from(g, k as int) == gk + t + layout_from(g, k + 1));
                assert(gk + t + layout_from(g, k + 1) =~= gk + (t + layout_from(g, k + 1)));
                lemma_starts_with_split(s, gk, t + layout_from(g, k + 1));
                let s2 = s.subrange(gk.len() as int, s.len() as int);
                lemma_starts_with_split(s2, t, layout_from(g, k + 1));
                assert(line@.subrange(pos as int, pos + gk.len()) =~= gk) by {
                    assert(s.subrange(0, gk.len() as int) =~= line@.subrange(pos as int, pos + gk.len()));
                }
                assert(s2 =~= line@.subrange(pos + gk.len(), line.len() as int));
                assert(s2.subrange(t.len() as int, s2.len() as int) =~= line@.subrange(
                    pos + gk.len() + t.len(),
                    line.len() as int,
                ));
            }
        }
        match scan_field(line, pos, k) {
            None => {
                assert forall|g: Seq<Seq<char>>| !frames(g, line@) by {
                    if frames(g, line@) {
                        assert(field_ends_at(line@, k as int, pos as int, pos + g[k as int].len()));
                    }
                }
                return None;
            },
            Some(j) => {
                let t = terminator_of(k);
                let t_len = chars_of(t).len();
                bounds.push((pos, j));
                let ghost old_pos = pos;
                pos = j + t_len;
                proof {
                    assert(bounds@[k as int] == (old_pos, j));
                    assert forall|g: Seq<Seq<char>>| frames(g, line@) implies {
                        &&& forall|i: int|
                            0 <= i < k + 1 ==> #[trigger] g[i] == bounded_field(line@, bounds@, i)
                        &&& starts_with(line@.subrange(pos as int, line.len() as int), layout_from(g, k + 1))
                    } by {
                        assert(field_ends_at(line@, k as int, old_pos as int, old_pos + g[k as int].len()));
                        assert(old_pos + g[k as int].len() == j);
                        assert(g[k as int] =~= bounded_field(line@, bounds@, k as int));
                        assert forall|i: int| 0 <= i < k + 1 implies #[trigger] g[i] == bounded_field(line@, bounds@, i) by {
                            if i < k {
                                assert(bounded_field(line@, bounds@, i) == bounded_field(line@, bounds@.drop_last(), i));
                            }
                        }
                    }
                }
                k += 1;
            },
        }
    }
    Some(bounds)
}

/// A line that could not be read as a combined log entry, kept for the diagnostics.
#[derive(Debug)]
pub struct ParseError(pub String);

impl ParseError {
    pub fn new(line: &str) -> (r: ParseError)
        ensures
            r.0@ == line@,
    {
        ParseError(String::from_str(line))
    }

    /// The message that reports the error.
    pub fn message(&self) -> (r: String)
        ensures
            r@ == "Unable to parse line '"@ + self.0@ + "'"@,
    {
        String::from_str("Unable to parse line '").concat(self.0.as_str()).concat("'")
    }
}

/// The fields of a combined log line that the ingestion uses, as text.
#[derive(Debug)]
pub struct LogLine {
    pub ip: String,
    pub date: String,
    pub method: String,
    pub url: String,
    pub status: String,
    pub referrer: String,
    pub useragent: String,
}

impl LogLine {
    /// Whether this holds the fields of the reading `f`.
    pub open spec fn holds(&self, f: Seq<Seq<char>>) -> bool {
        &&& self.ip@ == f[0]
        &&& self.date@ == f[3]
        &&& self.method@ == f[4]
        &&& self.url@ == f[5]
        &&& self.status@ == f[7]
        &&& self.referrer@ == f[9]
        &&& self.useragent@ == f[10]
    }
}

fn field_text(line: &str, b: &Vec<(usize, usize)>, k: usize) -> (r: String)
    requires
        k < b.len(),
        b@[k as int].0 <= b@[k as int].1 <= line@.len(),
    ensures
        r@ == bounded_field(line@, b@, k as int),
{
    String::from_str(line.substring_char(b[k].0, b[k].1))
}

/// Splits a combined log line
/// `IP IDENT AUTH [DATE] "METHOD URL PROTO" STATUS BYTES "REFERRER" "USERAGENT"`
/// into its fields, or returns `None` where the line has no reading.
pub fn split_line(line: &str) -> (r: Option<LogLine>)
    ensures
        match line_fields(line@) {
            Some(f) => r matches Some(l) && l.holds(f),
            None => r is None,
        },
{
    let chars = chars_of(line);
    match scan_line(&chars) {
        None => None,
        Some(b) => {
            let ghost f = Seq::new(FIELD_COUNT as nat, |i: int| bounded_field(line@, b@, i));
            proof {
                assert forall|i: int| 0 <= i < FIELD_COUNT implies #[trigger] f[i] == bounded_field(
                    line@,
                    b@,
                    i,
                ) by {}
                lemma_chained_layout(line@, b@, f, 0);
                assert(line@.subrange(0, line@.len() as int) =~= line@);
                assert forall|k: int| 0 <= k < FIELD_COUNT implies field_ok(k, #[trigger] f[k]) by {
                    assert(field_ends_at(line@, k, b@[k].0 as int, b@[k].1 as int));
                }
                assert(frames(f, line@));
                let g = choose|g: Seq<Seq<char>>| frames(g, line@);
                lemma_reading_unique(f, g, line@);
                assert forall|k: int| 0 <= k < FIELD_COUNT implies (#[trigger] b@[k]).0 <= b@[k].1
                    <= line@.len() by {
                    assert(field_ends_at(line@, k, b@[k].0 as int, b@[k].1 as int));
                }
            }
            Some(
                LogLine {
                    ip: field_text(line, &b, 0),
                    date: field_text(line, &b, 3),
                    method: field_text(line, &b, 4),
                    url: field_text(line, &b, 5),
                    status: field_text(line, &b, 7),
                    referrer: field_text(line, &b, 9),
                    useragent: field_text(line, &b, 10),
                },
            )
        },
    }
}

/// The number written by the decimal digits `s`, most significant first.
pub open spec fn decimal_value(s: Seq<char>) -> int
    decreases s.len(),
{
    if s.len() == 0 {
        0
    } else {
        decimal_value(s.drop_last()) * 10 + (s.last() as int - '0' as int)
    }
}

pub open spec fn all_digits(s: Seq<char>) -> bool {
    forall|i: int| 0 <= i < s.len() ==> is_digit(#[trigger] s[i])
}

/// Whether `s` is a status code: one or more decimal digits whose value fits in an `i32`.
pub open spec fn is_status(s: Seq<char>) -> bool {
    s.len() > 0 && all_digits(s) && decimal_value(s) <= i32::MAX
}

proof fn lemma_decimal_prefix(s: Seq<char>, i: int)
    requires
        all_digits(s),
        0 <= i <= s.len(),
    ensures
        0 <= decimal_value(s.take(i)) <= decimal_value(s),
    decreases s.len(),
{
    if i < s.len() {
        assert(all_digits(s.drop_last()));
        assert(s.drop_last().take(i) =~= s.take(i));
        lemma_decimal_prefix(s.drop_last(), i);
        assert(is_digit(s[s.len() - 1]));
    } else {
        assert(s.take(i) =~= s);
        if s.len() > 0 {
            assert(all_digits(s.drop_last()));
            lemma_decimal_prefix(s.drop_last(), i - 1);
            assert(s.drop_last().take(i - 1) =~= s.drop_last());
            assert(is_digit(s[s.len() - 1]));
        }
    }
}

/// Reads a status code.
fn status_value(text: &str) -> (r: Option<i32>)
    ensures
        r is Some <==> is_status(text@),
        r matches Some(v) ==> v == decimal_value(text@),
{
    let chars = chars_of(text);
    if chars.len() == 0 {
        return None;
    }
    let mut acc: i64 = 0;
    let mut i: usize = 0;
    while i < chars.len()
        invariant
            i <= chars.len(),
            chars@ == text@,
            all_digits(chars@.take(i as int)),
            acc == decimal_value(chars@.take(i as int)),
            0 <= acc <= i32::MAX,
        decreases chars.len() - i,
    {
        let c = chars[i];
        if !('0' <= c && c <= '9') {
            return None;
        }
        assert(chars@.take(i + 1).drop_last() =~= chars@.take(i as int));
        acc = acc * 10 + (c as i64 - '0' as i64);
        i += 1;
        assert(all_digits(chars@.take(i as int)));
        if acc > i32::MAX as i64 {
            proof {
                if all_digits(chars@) {
                    lemma_decimal_prefix(chars@, i as int);
                }
            }
            return None;
        }
    }
    assert(chars@.take(i as int) =~= chars@);
    Some(acc as i32)
}

/// The MD5 digest of the UTF-8 encoding of `text`.
pub uninterp spec fn md5_of(text: Seq<char>) -> Seq<u8>;

/// Relies on md5::compute: the 16 bytes of the MD5 digest of the text's UTF-8 bytes.
#[verifier::external_body]
fn md5_digest(text: &str) -> (r: [u8; 16])
    ensures
        r@ == md5_of(text@),
{
    md5::compute(text).0
}

/// The time that `text` gives under the `strftime`-style `format`, in seconds since
/// the Unix epoch, where `text` has that form.
pub uninterp spec fn parsed_time(text: Seq<char>, format: Seq<char>) -> Option<i64>;

/// Relies on chrono's DateTime::parse_from_str, which reads a time with its offset in
/// `format`, and DateTime::timestamp, which gives it in seconds since the Unix epoch.
#[verifier::external_body]
fn parse_time(text: &str, format: &str) -> (r: Option<i64>)
    ensures
        r == parsed_time(text@, format@),
{
    match chrono::DateTime::parse_from_str(text, format) {
        Ok(t) => Some(t.timestamp()),
        Err(_) => None,
    }
}

/// The form of the date of a combined log line, as in `10/Oct/2000:13:55:36 -0700`.
pub const DATE_FORMAT: &'static str = "%d/%b/%Y:%H:%M:%S %z";

/// The unsigned value of the first eight bytes of `b`, least significant first.
pub open spec fn le_value(b: Seq<u8>) -> int {
    b[0] + 0x100 * b[1] + 0x1_0000 * b[2] + 0x100_0000 * b[3] + 0x1_0000_0000 * b[4]
        + 0x100_0000_0000 * b[5] + 0x1_0000_0000_0000 * b[6] + 0x100_0000_0000_0000 * b[7]
}

/// The 64-bit two's complement reading of `v`, for `0 <= v < 2^64`.
pub open spec fn signed64(v: int) -> int {
    if v >= 0x8000_0000_0000_0000 {
        v - 0x1_0000_0000_0000_0000
    } else {
        v
    }
}

/// The pseudonym of a client: the first eight bytes of the MD5 digest of its address
/// followed by its user agent, read as a little-endian signed integer.
pub open spec fn user_hash(ip: Seq<char>, useragent: Seq<char>) -> int {
    signed64(le_value(md5_of(ip + useragent)))
}

fn le_i64(b: &[u8; 16]) -> (r: i64)
    ensures
        r as int == signed64(le_value(b@)),
{
    let v: u64 = b[0] as u64 + 0x100 * (b[1] as u64) + 0x1_0000 * (b[2] as u64) + 0x100_0000 * (
    b[3] as u64) + 0x1_0000_0000 * (b[4] as u64) + 0x100_0000_0000 * (b[5] as u64)
        + 0x1_0000_0000_0000 * (b[6] as u64) + 0x100_0000_0000_0000 * (b[7] as u64);
    if v >= 0x8000_0000_0000_0000 {
        (v - 0x8000_0000_0000_0000) as i64 + i64::MIN
    } else {
        v as i64
    }
}

/// The pseudonym of the client at `ip` with the user agent text `useragent`.
pub fn pseudonym(ip: &str, useragent: &str) -> (r: i64)
    ensures
        r as int == user_hash(ip@, useragent@),
{
    let text = String::from_str(ip).concat(useragent);
    le_i64(&md5_digest(text.as_str()))
}

/// The pseudonym fits in 64 bits, whatever the address and user agent.
pub proof fn lemma_user_hash_fits(ip: Seq<char>, useragent: Seq<char>)
    ensures
        i64::MIN <= user_hash(ip, useragent) <= i64::MAX,
{
    let d = md5_of(ip + useragent);
    assert(0 <= le_value(d) < 0x1_0000_0000_0000_0000) by {
        assert(0 <= d[0] < 256 && 0 <= d[1] < 256 && 0 <= d[2] < 256 && 0 <= d[3] < 256);
        assert(0 <= d[4] < 256 && 0 <= d[5] < 256 && 0 <= d[6] < 256 && 0 <= d[7] < 256);
    }
}

/// The pseudonym depends on the address and the user agent field alone: two lines
/// of one client give one hash, whatever their other fields.
pub proof fn lemma_same_client_same_hash(a: LogLine, b: LogLine, ip: Seq<char>, ta: i64, tb: i64)
    requires
        a.useragent@ == b.useragent@,
    ensures
        a.entry_spec(ip, ta).user == b.entry_spec(ip, tb).user,
{
}

/// A user agent or referrer field: absent where the log wrote `-`.
pub open spec fn optional_text(s: Seq<char>) -> Option<Seq<char>> {
    if s == seq!['-'] {
        None
    } else {
        Some(s)
    }
}

/// A user agent or referrer written `-` is absent; any other text is kept as it is.
pub proof fn lemma_dash_is_absent(s: Seq<char>)
    ensures
        optional_text(seq!['-']) is None,
        s != seq!['-'] ==> optional_text(s) == Some(s),
{
}

fn is_dash(s: &str) -> (r: bool)
    ensures
        r == (s@ == seq!['-']),
{
    let chars = chars_of(s);
    let r = chars.len() == 1 && chars[0] == '-';
    assert(r ==> chars@ =~= seq!['-']);
    r
}

impl LogLine {
    /// The entry this line describes, for the client address written `ip` and the
    /// request time `timestamp`.
    pub open spec fn entry_spec(&self, ip: Seq<char>, timestamp: i64) -> LogEntryView {
        LogEntryView {
            timestamp,
            request: RequestView {
                method: self.method@,
                url: self.url@,
                status_code: decimal_value(self.status@) as i32,
            },
            user: UserView {
                hash: user_hash(ip, self.useragent@) as i64,
                useragent: optional_text(self.useragent@),
            },
            referrer: optional_text(self.referrer@),
        }
    }

    /// The entry this line describes. `ip` is the client address in its standard
    /// written form, or `None` where the address field is not an IPv4 or IPv6 address.
    /// There is none where the address is not one, the date does not read under
    /// `DATE_FORMAT`, or the status is not an `i32`.
    pub fn to_entry(&self, ip: Option<String>) -> (r: Option<LogEntry>)
        ensures
            r is Some <==> (ip is Some && parsed_time(self.date@, DATE_FORMAT@) is Some && is_status(
                self.status@,
            )),
            r matches Some(e) ==> e@ == self.entry_spec(
                ip->Some_0@,
                parsed_time(self.date@, DATE_FORMAT@)->Some_0,
            ),
    {
        let ip = match ip {
            Some(ip) => ip,
            None => return None,
        };
        let timestamp = match parse_time(self.date.as_str(), DATE_FORMAT) {
            Some(t) => t,
            None => return None,
        };
        let status_code = match status_value(self.status.as_str()) {
            Some(v) => v,
            None => return None,
        };
        let hash = pseudonym(ip.as_str(), self.useragent.as_str());
        let useragent = if is_dash(self.useragent.as_str()) {
            None
        } else {
            Some(Useragent { value: copy_text(&self.useragent) })
        };
        let referrer = if is_dash(self.referrer.as_str()) {
            None
        } else {
            Some(Referrer { url: copy_text(&self.referrer) })
        };
        let e = LogEntry {
            timestamp,
            request: Request { method: copy_text(&self.method), url: copy_text(&self.url), status_code },
            user: User { hash, useragent },
            referrer,
        };
        assert(e@.request == self.entry_spec(ip@, timestamp).request);
        assert(e@.user == self.entry_spec(ip@, timestamp).user);
        Some(e)
    }
}

} // verus!
