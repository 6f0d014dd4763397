//! The message-history log's pure logic: the record type and its line
//! rendering, the persistence decision with its sensitive-pattern filter,
//! the size-limit trimming, entry counting, the advisory-lock retry policy,
//! and the offset lookup.
//!
//! The log itself is a file of one JSON record per line; opening, locking
//! and reading it is the unverified shell's work, which hands the bytes and
//! lines read to the functions here.

use vstd::prelude::*;

use crate::jsonl::line_spec;
use crate::jsonl::parse_line;
use crate::jsonl::parse_line_spec;
use crate::jsonl::render_line;

verus! {

/// One record of the message-history log.
pub struct HistoryEntry {
    pub session_id: String,
    pub ts: u64,
    pub text: String,
}

impl HistoryEntry {
    /// Renders this entry as its history line, without a trailing newline.
    pub fn to_line(&self) -> (r: String)
        ensures
            r@ == line_spec(self.session_id@, self.ts, self.text@),
    {
        render_line(self.session_id.as_str(), self.ts, self.text.as_str())
    }

    /// Reads an entry back from one line of the log.
    pub fn from_line(line: &str) -> (r: Option<HistoryEntry>)
        ensures
            match r {
                Some(e) => parse_line_spec(line@) == Some((e.session_id@, e.ts, e.text@)),
                None => parse_line_spec(line@) is None,
            },
    {
        match parse_line(line) {
            Some(t) => Some(HistoryEntry { session_id: t.0, ts: t.1, text: t.2 }),
            None => None,
        }
    }
}

/// Whether the history log is written at all.
#[derive(Clone, Copy, Debug)]
pub enum HistoryPersistence {
    /// Every entry is appended.
    SaveAll,
    /// Nothing is ever appended.
    SaveNone,
}

/// The path of the history file under the configuration directory.
pub fn history_filepath(codex_home: &str) -> (r: String)
    ensures
        r@ == codex_home@ + "/history.jsonl"@,
{
    let p: String = codex_home.to_owned();
    p.concat("/history.jsonl")
}

/// Whether `pattern` is a well-formed pattern. Named for
/// regex_lite::Regex::new, whose outcome depends on the pattern alone.
pub uninterp spec fn regex_compiles(pattern: Seq<char>) -> bool;

/// Whether `pattern` matches somewhere in `text`. Named for
/// regex_lite::Regex::is_match, whose outcome depends on the two strings
/// alone.
pub uninterp spec fn regex_accepts(pattern: Seq<char>, text: Seq<char>) -> bool;

/// Relies on regex_lite::Regex::new and regex_lite::Regex::is_match: the
/// pattern either fails to compile, or matches the text or not; both
/// outcomes are functions of the two strings alone.
#[verifier::external_body]
fn regex_match(pattern: &str, text: &str) -> (r: Option<bool>)
    ensures
        r is Some <==> regex_compiles(pattern@),
        r matches Some(m) ==> m == regex_accepts(pattern@, text@),
{
    match regex_lite::Regex::new(pattern) {
        Ok(re) => Some(re.is_match(text)),
        Err(_) => None,
    }
}

/// Some configured sensitive pattern compiles and matches the text.
pub open spec fn matches_sensitive(patterns: Seq<String>, text: Seq<char>) -> bool {
    exists|k: int|
        0 <= k < patterns.len() && regex_compiles(patterns[k]@) && regex_accepts(
            patterns[k]@,
            text,
        )
}

/// What the append path decides for an entry: written, or silently skipped.
pub open spec fn persist_decision(
    persistence: HistoryPersistence,
    text: Seq<char>,
    patterns: Option<Seq<String>>,
) -> bool {
    match persistence {
        HistoryPersistence::SaveNone => false,
        HistoryPersistence::SaveAll => match patterns {
            None => true,
            Some(ps) => !matches_sensitive(ps, text),
        },
    }
}

/// Decides whether an entry with this text is appended: not when
/// persistence is off, and not when a sensitive pattern that compiles
/// matches the text. A pattern that fails to compile is skipped.
pub fn should_persist(
    persistence: &HistoryPersistence,
    text: &str,
    patterns: &Option<Vec<String>>,
) -> (r: bool)
    ensures
        r == persist_decision(
            *persistence,
            text@,
            match patterns {
                Some(v) => Some(v@),
                None => None,
            },
        ),
{
    match persistence {
        HistoryPersistence::SaveNone => false,
        HistoryPersistence::SaveAll => {
            match patterns {
                None => true,
                Some(ps) => {
                    let n: usize = ps.len();
                    let mut k: usize = 0;
                    while k < n
                        invariant
                            *persistence is SaveAll,
                            *patterns matches Some(v) && v@ == ps@,
                            n == ps@.len(),
                            k <= n,
                            forall|m: int|
                                0 <= m < k ==> !(regex_compiles(ps@[m]@) && regex_accepts(
                                    ps@[m]@,
                                    text@,
                                )),
                        decreases n - k,
                    {
                        match regex_match(ps[k].as_str(), text) {
                            Some(true) => {
                                assert(regex_compiles(ps@[k as int]@) && regex_accepts(
                                    ps@[k as int]@,
                                    text@,
                                ));
                                assert(matches_sensitive(ps@, text@));
                                return false;
                            },
                            _ => {},
                        }
                        k = k + 1;
                    }
                    true
                },
            }
        },
    }
}

/// The number of tries the advisory-lock path makes before giving up.
pub const MAX_RETRIES: usize = 10;

/// What one attempt to take the advisory lock came back with.
#[derive(Clone, Copy, Debug)]
pub enum LockOutcome {
    /// The lock was taken.
    Acquired,
    /// Another process holds the lock.
    Busy,
    /// Locking failed for some other reason.
    Failed,
}

/// What the retry policy does after one attempt.
#[derive(Clone, Copy, Debug)]
pub enum LockStep {
    /// Proceed: the lock is held.
    Done,
    /// Sleep briefly and try again.
    RetryAfterDelay,
    /// Too many busy attempts: report that the lock could not be taken.
    GiveUp,
    /// Report the underlying failure as it is.
    Fail,
}

/// The retry policy as a value: `attempt` is the number of attempts already
/// made before this one.
pub open spec fn lock_step_spec(attempt: int, outcome: LockOutcome) -> LockStep {
    match outcome {
        LockOutcome::Acquired => LockStep::Done,
        LockOutcome::Busy => if attempt + 1 < MAX_RETRIES {
            LockStep::RetryAfterDelay
        } else {
            LockStep::GiveUp
        },
        LockOutcome::Failed => LockStep::Fail,
    }
}

/// Decides how the locking loop goes on after attempt number `attempt`
/// (counting from zero) came back with `outcome`: a busy lock is retried up
/// to [`MAX_RETRIES`] times in all, any other failure ends the loop at once.
pub fn lock_retry_step(attempt: usize, outcome: &LockOutcome) -> (r: LockStep)
    ensures
        r == lock_step_spec(attempt as int, *outcome),
{
    match outcome {
        LockOutcome::Acquired => LockStep::Done,
        LockOutcome::Busy => if attempt < MAX_RETRIES - 1 {
            LockStep::RetryAfterDelay
        } else {
            LockStep::GiveUp
        },
        LockOutcome::Failed => LockStep::Fail,
    }
}

/// Owner-only permissions: the low nine mode bits must be exactly `0o600`.
pub fn needs_permission_fix(mode: u32) -> (r: bool)
    ensures
        r == ((mode & 0o777) != 0o600),
{
    (mode & 0o777) != 0o600
}

/// How many newline bytes the data holds: the log's entry count.
pub open spec fn newline_count(d: Seq<u8>) -> int
    decreases d.len(),
{
    if d.len() == 0 {
        0
    } else {
        newline_count(d.drop_last()) + if d.last() == 10 {
            1int
        } else {
            0int
        }
    }
}

/// Counts the newline bytes in the history file's contents.
pub fn count_newlines(data: &Vec<u8>) -> (r: usize)
    ensures
        r == newline_count(data@),
{
    let n: usize = data.len();
    let mut count: usize = 0;
    let mut i: usize = 0;
    assert(data@.take(0) =~= Seq::<u8>::empty());
    while i < n
        invariant
            n == data@.len(),
            i <= n,
            count <= i,
            count == newline_count(data@.take(i as int)),
        decreases n - i,
    {
        proof {
            assert(data@.take(i + 1).drop_last() =~= data@.take(i as int));
            assert(data@.take(i + 1).last() == data@[i as int]);
        }
        if data[i] == 10 {
            count = count + 1;
        }
        i = i + 1;
    }
    proof {
        assert(data@.take(n as int) =~= data@);
    }
    count
}

/// The index of the first newline byte, if there is one.
pub open spec fn first_newline(d: Seq<u8>) -> Option<int>
    decreases d.len(),
{
    if d.len() == 0 {
        None
    } else if d[0] == 10 {
        Some(0)
    } else {
        match first_newline(d.drop_first()) {
            Some(p) => Some(p + 1),
            None => None,
        }
    }
}

proof fn lemma_first_newline_bounds(d: Seq<u8>)
    ensures
        first_newline(d) matches Some(p) ==> 0 <= p < d.len() && d[p] == 10 && forall|k: int|
            0 <= k < p ==> d[k] != 10,
        first_newline(d) is None ==> forall|k: int| 0 <= k < d.len() ==> d[k] != 10,
    decreases d.len(),
{
    if d.len() > 0 && d[0] != 10 {
        lemma_first_newline_bounds(d.drop_first());
        match first_newline(d.drop_first()) {
            Some(p) => {
                assert(first_newline(d) == Some(p + 1));
                assert(d.drop_first()[p] == d[p + 1]);
                assert forall|k: int| 0 <= k < p + 1 implies d[k] != 10 by {
                    if k > 0 {
                        assert(d.drop_first()[k - 1] == d[k]);
                    }
                }
            },
            None => {
                assert forall|k: int| 0 <= k < d.len() implies d[k] != 10 by {
                    if k > 0 {
                        assert(d.drop_first()[k - 1] == d[k]);
                    }
                }
            },
        }
    }
}

/// What remains of the log once whole oldest lines are dropped until the
/// data fits the limit; when not even the last partial line fits, the
/// newest `limit` bytes.
pub open spec fn trim_spec(d: Seq<u8>, limit: int) -> Seq<u8>
    decreases d.len(),
    via trim_spec_decreases
{
    if d.len() <= limit || limit < 0 {
        d
    } else {
        match first_newline(d) {
            Some(p) => trim_spec(d.skip(p + 1), limit),
            None => d.skip(d.len() - limit),
        }
    }
}

#[via_fn]
proof fn trim_spec_decreases(d: Seq<u8>, limit: int) {
    lemma_first_newline_bounds(d);
}

/// The trimmed log never exceeds the limit, unless it is the untouched
/// original that already fit.
pub proof fn lemma_trim_len(d: Seq<u8>, limit: int)
    requires
        0 <= limit,
    ensures
        d.len() <= limit ==> trim_spec(d, limit) == d,
        d.len() > limit ==> trim_spec(d, limit).len() <= limit,
    decreases d.len(),
{
    if d.len() > limit {
        lemma_first_newline_bounds(d);
        match first_newline(d) {
            Some(p) => {
                lemma_trim_len(d.skip(p + 1), limit);
            },
            None => {},
        }
    }
}

/// Trimming only ever removes a prefix: what stays is a suffix of the log,
/// newest entries last.
pub proof fn lemma_trim_suffix(d: Seq<u8>, limit: int)
    ensures
        exists|k: int| 0 <= k <= d.len() && trim_spec(d, limit) == d.skip(k),
    decreases d.len(),
{
    if d.len() <= limit || limit < 0 {
        assert(d.skip(0) =~= d);
        assert(trim_spec(d, limit) == d.skip(0));
    } else {
        lemma_first_newline_bounds(d);
        match first_newline(d) {
            Some(p) => {
                lemma_trim_suffix(d.skip(p + 1), limit);
                let k = choose|k: int|
                    0 <= k <= d.skip(p + 1).len() && trim_spec(d.skip(p + 1), limit) == #[trigger] d
                        .skip(p + 1).skip(k);
                assert(d.skip(p + 1).skip(k) =~= d.skip(p + 1 + k));
            },
            None => {
            },
        }
    }
}

proof fn lemma_first_newline_range(d: Seq<u8>, i: int, j: int)
    requires
        0 <= i <= j <= d.len(),
        forall|k: int| i <= k < j ==> d[k] != 10,
        j == d.len() || d[j] == 10,
    ensures
        first_newline(d.skip(i)) == if j == d.len() {
            None
        } else {
            Some(j - i)
        },
    decreases j - i,
{
    if i == j {
        if j < d.len() {
            assert(d.skip(i)[0] == d[i]);
        }
    } else {
        assert(d.skip(i)[0] == d[i]);
        assert(d.skip(i).drop_first() =~= d.skip(i + 1));
        lemma_first_newline_range(d, i + 1, j);
    }
}

/// Appends the new line to the existing log bytes and drops the oldest
/// whole lines until the result fits the limit; when not even the new line
/// alone fits, keeps the newest `limit` bytes.
pub fn trimmed_history(existing: &Vec<u8>, line: &Vec<u8>, limit: usize) -> (r: Vec<u8>)
    ensures
        r@ == trim_spec(existing@ + line@, limit as int),
{
    let mut data: Vec<u8> = Vec::new();
    let en: usize = existing.len();
    let mut i: usize = 0;
    assert(data@ =~= existing@.take(0));
    while i < en
        invariant
            en == existing@.len(),
            i <= en,
            data@ == existing@.take(i as int),
        decreases en - i,
    {
        data.push(existing[i]);
        assert(data@ =~= existing@.take(i + 1));
        i = i + 1;
    }
    let ln: usize = line.len();
    let mut j: usize = 0;
    assert(existing@.take(en as int) =~= existing@);
    assert(data@ =~= existing@ + line@.take(0));
    while j < ln
        invariant
            ln == line@.len(),
            j <= ln,
            data@ == existing@ + line@.take(j as int),
        decreases ln - j,
    {
        data.push(line[j]);
        assert(data@ =~= existing@ + line@.take(j + 1));
        j = j + 1;
    }
    assert(line@.take(ln as int) =~= line@);
    let ghost full = existing@ + line@;
    let n: usize = data.len();
    let mut start: usize = 0;
    assert(full.skip(0) =~= full);
    while n - start > limit
        invariant
            n == data@.len(),
            data@ == full,
            start <= n,
            trim_spec(full, limit as int) == trim_spec(full.skip(start as int), limit as int),
        ensures
            start <= n,
            trim_spec(full, limit as int) == trim_spec(full.skip(start as int), limit as int),
            full.skip(start as int).len() <= limit,
        decreases n - start,
    {
        let mut k: usize = start;
        while k < n
            invariant
                n == data@.len(),
                data@ == full,
                start <= k <= n,
                forall|m: int| start <= m < k ==> full[m] != 10,
            ensures
                start <= k <= n,
                forall|m: int| start <= m < k ==> full[m] != 10,
                k == n || full[k as int] == 10,
            decreases n - k,
        {
            if data[k] == 10 {
                break ;
            }
            k = k + 1;
        }
        proof {
            lemma_first_newline_range(full, start as int, k as int);
        }
        if k < n {
            assert(first_newline(full.skip(start as int)) == Some(k - start));
            assert(full.skip(start as int).skip(k - start + 1) =~= full.skip(k + 1));
            start = k + 1;
        } else {
            assert(first_newline(full.skip(start as int)) is None);
            let new_start: usize = n - limit;
            assert(full.skip(start as int).skip(full.skip(start as int).len() - limit)
                =~= full.skip(new_start as int));
            assert(full.skip(new_start as int).len() <= limit);
            assert(trim_spec(full.skip(new_start as int), limit as int) == full.skip(
                new_start as int,
            ));
            start = new_start;
            break ;
        }
    }
    let mut out: Vec<u8> = Vec::new();
    let mut m: usize = start;
    assert(out@ =~= full.subrange(start as int, start as int));
    while m < n
        invariant
            n == data@.len(),
            data@ == full,
            start <= m <= n,
            out@ == full.subrange(start as int, m as int),
        decreases n - m,
    {
        out.push(data[m]);
        assert(out@ =~= full.subrange(start as int, m + 1));
        m = m + 1;
    }
    proof {
        assert(full.subrange(start as int, n as int) =~= full.skip(start as int));
        assert(trim_spec(full.skip(start as int), limit as int) == full.skip(start as int));
    }
    out
}

/// Returns the entry at the zero-based `offset` of the log's lines, when
/// the caller's log identity matches the file's and that line parses;
/// nothing otherwise.
pub fn lookup(log_id: u64, actual_log_id: u64, offset: usize, lines: &Vec<String>) -> (r: Option<
    HistoryEntry,
>)
    ensures
        log_id != actual_log_id ==> r is None,
        offset >= lines@.len() ==> r is None,
        log_id == actual_log_id && offset < lines@.len() ==> match r {
            Some(e) => parse_line_spec(lines@[offset as int]@) == Some(
                (e.session_id@, e.ts, e.text@),
            ),
            None => parse_line_spec(lines@[offset as int]@) is None,
        },
{
    if log_id != actual_log_id {
        return None;
    }
    if offset >= lines.len() {
        return None;
    }
    HistoryEntry::from_line(lines[offset].as_str())
}

} // verus!