//! The counters of the progress line, and when to draw it.

use vstd::prelude::*;

verus! {

/// How often, at most, the progress line is drawn, in milliseconds.
pub const TERMINAL_MS_PER_FRAME: u64 = 30;

/// What the parser and the persister report while they work.
#[derive(Debug, Clone, Copy, PartialEq, Eq, Structural)]
pub enum Event {
    RowParsed,
    RowUnique,
    RowInserted,
    LogParseError,
    LogFileIOError,
    SqliteError,
    DuplicateEntry,
    AllParsingDone,
    AllInsertDone,
}

/// The counters of the progress line. Each counter stops at `u64::MAX`.
#[derive(Debug, Clone, Copy, PartialEq, Eq, Structural)]
pub struct Progress {
    pub parsed: u64,
    pub parse_errors: u64,
    pub io_errors: u64,
    pub unique: u64,
    pub insertted: u64,
    pub insert_errors: u64,
    pub duplicates: u64,
    pub parsing_done: bool,
    pub insert_done: bool,
}

pub open spec fn bump(n: u64) -> u64 {
    if n < u64::MAX {
        (n + 1) as u64
    } else {
        n
    }
}

/// The counters after `e`: the counter of the event's kind grows by one.
pub open spec fn after(p: Progress, e: Event) -> Progress {
    match e {
        Event::RowParsed => Progress { parsed: bump(p.parsed), ..p },
        Event::RowUnique => Progress { unique: bump(p.unique), ..p },
        Event::RowInserted => Progress { insertted: bump(p.insertted), ..p },
        Event::LogParseError => Progress { parse_errors: bump(p.parse_errors), ..p },
        Event::LogFileIOError => Progress { io_errors: bump(p.io_errors), ..p },
        Event::SqliteError => Progress { insert_errors: bump(p.insert_errors), ..p },
        Event::DuplicateEntry => Progress { duplicates: bump(p.duplicates), ..p },
        Event::AllParsingDone => Progress { parsing_done: true, ..p },
        Event::AllInsertDone => Progress { insert_done: true, ..p },
    }
}

/// The counters after the events `es`, in order.
pub open spec fn after_all(p: Progress, es: Seq<Event>) -> Progress
    decreases es.len(),
{
    if es.len() == 0 {
        p
    } else {
        after(after_all(p, es.drop_last()), es.last())
    }
}

fn bump_exec(n: u64) -> (r: u64)
    ensures
        r == bump(n),
{
    if n < u64::MAX {
        n + 1
    } else {
        n
    }
}

impl Progress {
    /// All counters at zero.
    pub fn new() -> (r: Progress)
        ensures
            r == (Progress {
                parsed: 0,
                parse_errors: 0,
                io_errors: 0,
                unique: 0,
                insertted: 0,
                insert_errors: 0,
                duplicates: 0,
                parsing_done: false,
                insert_done: false,
            }),
    {
        Progress {
            parsed: 0,
            parse_errors: 0,
            io_errors: 0,
            unique: 0,
            insertted: 0,
            insert_errors: 0,
            duplicates: 0,
            parsing_done: false,
            insert_done: false,
        }
    }

    /// Counts the event `e`.
    pub fn apply(&mut self, e: Event)
        ensures
            *final(self) == after(*old(self), e),
    {
        match e {
            Event::RowParsed => self.parsed = bump_exec(self.parsed),
            Event::RowUnique => self.unique = bump_exec(self.unique),
            Event::RowInserted => self.insertted = bump_exec(self.insertted),
            Event::LogParseError => self.parse_errors = bump_exec(self.parse_errors),
            Event::LogFileIOError => self.io_errors = bump_exec(self.io_errors),
            Event::SqliteError => self.insert_errors = bump_exec(self.insert_errors),
            Event::DuplicateEntry => self.duplicates = bump_exec(self.duplicates),
            Event::AllParsingDone => self.parsing_done = true,
            Event::AllInsertDone => self.insert_done = true,
        }
    }

    /// Counts the events `es` in order.
    pub fn apply_all(&mut self, es: &Vec<Event>)
        ensures
            *final(self) == after_all(*old(self), es@),
    {
        let mut i: usize = 0;
        while i < es.len()
            invariant
                i <= es.len(),
                *self == after_all(*old(self), es@.take(i as int)),
            decreases es.len() - i,
        {
            self.apply(es[i]);
            assert(es@.take(i + 1).drop_last() =~= es@.take(i as int));
            i += 1;
        }
        assert(es@.take(i as int) =~= es@);
    }
}

/// Whether the progress line is due: more than a frame has passed since it was
/// last drawn at `drawn_ms`.
pub fn frame_due(drawn_ms: u64, now_ms: u64) -> (r: bool)
    ensures
        r == (now_ms > drawn_ms + TERMINAL_MS_PER_FRAME),
{
    now_ms > drawn_ms && now_ms - drawn_ms > TERMINAL_MS_PER_FRAME
}

/// A block of `n` lines that all failed to parse adds `n` to the parse errors and
/// nothing to the parsed rows (below the counters' ceiling).
pub proof fn lemma_failed_block_counts(p: Progress, es: Seq<Event>)
    requires
        forall|i: int| 0 <= i < es.len() ==> es[i] == Event::LogParseError,
        p.parse_errors + es.len() < u64::MAX,
    ensures
        after_all(p, es).parse_errors == p.parse_errors + es.len(),
        after_all(p, es).parsed == p.parsed,
        after_all(p, es).insertted == p.insertted,
    decreases es.len(),
{
    if es.len() > 0 {
        assert forall|i: int| 0 <= i < es.drop_last().len() implies es.drop_last()[i] == Event::LogParseError by {
            assert(es.drop_last()[i] == es[i]);
        }
        lemma_failed_block_counts(p, es.drop_last());
        assert(es.last() == es[es.len() - 1]);
    }
}

} // verus!
