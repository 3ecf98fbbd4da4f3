//! What is asked of the journal's database and what is written to it.
//!
//! The database orders text by its code points, which is the order of its
//! UTF-8 bytes, and holds integers as 64-bit signed numbers.
use vstd::prelude::*;
use crate::db::models::{JournalEntry, PathCacheEntry};
use crate::text;

verus! {

// ------------------------------------------------------------------ queries

/// The greatest character.
pub const LAST_CHARACTER: char = '\u{10FFFF}';

/// `a` comes before `b` in the order of code points.
pub open spec fn text_before(a: Seq<char>, b: Seq<char>) -> bool
    decreases a.len(),
{
    if b.len() == 0 {
        false
    } else if a.len() == 0 {
        true
    } else if a[0] != b[0] {
        (a[0] as u32) < (b[0] as u32)
    } else {
        text_before(a.skip(1), b.skip(1))
    }
}

/// The end of the range of texts that begin with `prefix`.
pub open spec fn range_end(prefix: Seq<char>) -> Seq<char> {
    prefix.push(LAST_CHARACTER)
}

/// `s` lies in the range from `prefix` up to its end.
pub open spec fn in_range(s: Seq<char>, prefix: Seq<char>) -> bool {
    !text_before(s, prefix) && text_before(s, range_end(prefix))
}

/// The text that ends the range of those that begin with `prefix`.
pub fn prefix_upper_bound(prefix: &str) -> (r: String)
    ensures
        r@ == range_end(prefix@),
{
    let mut out = text::copy_str(prefix);
    out.push(LAST_CHARACTER);
    out
}

/// The range from a prefix up to its upper bound holds exactly the texts that
/// begin with the prefix, except those that go on with the greatest character.
pub proof fn law_range_is_prefix(s: Seq<char>, prefix: Seq<char>)
    ensures
        in_range(s, prefix) <==> text::begins(s, prefix) && (s.len() > prefix.len()
            ==> s[prefix.len() as int] != LAST_CHARACTER),
    decreases prefix.len(),
{
    let end = range_end(prefix);
    if prefix.len() == 0 {
        assert(s.take(0) =~= prefix);
        if s.len() > 0 {
            let c: char = s[0];
            vstd::utf8::char_is_scalar(c);
            assert(end.len() == 1 && end[0] == LAST_CHARACTER);
            assert(c as u32 <= LAST_CHARACTER as u32);
            vstd::utf8::char_u32_cast(c, c as u32);
            vstd::utf8::char_u32_cast(LAST_CHARACTER, LAST_CHARACTER as u32);
            assert(end.skip(1) =~= Seq::<char>::empty());
            assert(!text_before(s.skip(1), end.skip(1)));
        }
    } else if s.len() == 0 {
        assert(text_before(s, prefix));
    } else {
        let tail = prefix.skip(1);
        assert(end.skip(1) =~= range_end(tail));
        assert(end[0] == prefix[0]);
        law_range_is_prefix(s.skip(1), tail);
        if s[0] == prefix[0] {
            if text::begins(s, prefix) {
                assert(s.skip(1).take(tail.len() as int) =~= s.take(prefix.len() as int).skip(1));
            }
            if text::begins(s.skip(1), tail) {
                assert(s.take(prefix.len() as int) =~= seq![s[0]] + s.skip(1).take(
                    tail.len() as int,
                ));
                assert(seq![s[0]] + tail =~= prefix);
            }
        } else if prefix.len() <= s.len() {
            assert(s.take(prefix.len() as int)[0] != prefix[0]);
        }
    }
}

/// Asks for the latest commands that begin with a prefix.
#[derive(Debug, Clone, PartialEq, Eq)]
pub struct PrefixQuery {
    pub prefix: String,
    pub upper: String,
    pub limit: i64,
}

impl PrefixQuery {
    /// The query asks for at most `limit` commands that begin with `prefix`.
    pub open spec fn asks(self, prefix: Seq<char>, limit: int) -> bool {
        self.prefix@ == prefix && self.upper@ == range_end(prefix) && self.limit == limit
    }

    /// Asks for at most `limit` commands that begin with `prefix`.
    pub fn new(prefix: &str, limit: usize) -> (r: PrefixQuery)
        ensures
            r.asks(prefix@, signed(limit as u64)),
    {
        PrefixQuery {
            prefix: text::copy_str(prefix),
            upper: prefix_upper_bound(prefix),
            limit: to_sql_integer(limit as u64),
        }
    }
}

/// Asks for the latest commands that begin with a prefix and were run in a
/// directory.
#[derive(Debug, Clone, PartialEq, Eq)]
pub struct CwdQuery {
    pub cwd: String,
    pub commands: PrefixQuery,
}

impl CwdQuery {
    /// The query asks for at most `limit` commands that begin with `prefix`
    /// and were run in `cwd`.
    pub open spec fn asks(self, cwd: Seq<char>, prefix: Seq<char>, limit: int) -> bool {
        self.cwd@ == cwd && self.commands.asks(prefix, limit)
    }

    /// Asks for at most `limit` commands that begin with `prefix` and were run
    /// in `cwd`.
    pub fn new(cwd: &str, prefix: &str, limit: usize) -> (r: CwdQuery)
        ensures
            r.asks(cwd@, prefix@, signed(limit as u64)),
    {
        CwdQuery { cwd: text::copy_str(cwd), commands: PrefixQuery::new(prefix, limit) }
    }
}

/// Asks for the commands that followed another most often and begin with a
/// prefix.
#[derive(Debug, Clone, PartialEq, Eq)]
pub struct TransitionQuery {
    pub prev_command: String,
    pub commands: PrefixQuery,
}

impl TransitionQuery {
    /// The query asks for at most `limit` commands that begin with `prefix`
    /// and followed `prev_command`.
    pub open spec fn asks(self, prev_command: Seq<char>, prefix: Seq<char>, limit: int) -> bool {
        self.prev_command@ == prev_command && self.commands.asks(prefix, limit)
    }

    /// Asks for at most `limit` commands that begin with `prefix` and followed
    /// `prev_command`.
    pub fn new(prev_command: &str, prefix: &str, limit: usize) -> (r: TransitionQuery)
        ensures
            r.asks(prev_command@, prefix@, signed(limit as u64)),
    {
        TransitionQuery {
            prev_command: text::copy_str(prev_command),
            commands: PrefixQuery::new(prefix, limit),
        }
    }
}

/// The pattern that texts with a given front match.
pub fn like_pattern(prefix: &str) -> (r: String)
    ensures
        r@ == prefix@.push('%'),
{
    let mut out = text::copy_str(prefix);
    out.push('%');
    out
}

/// `n` question marks with commas between them.
pub open spec fn question_marks(n: nat) -> Seq<char> {
    text::join(Seq::new(n, |i: int| "?"@), ", "@)
}

/// The statement that counts the successful runs of each of `n` commands, or
/// nothing where there is no command to count.
pub open spec fn frequencies_statement(n: nat) -> Option<Seq<char>> {
    if n == 0 {
        None
    } else {
        Some(
            "SELECT command_line, COUNT(*) as cnt FROM command_journal WHERE command_line IN ("@
                + question_marks(n)
                + ") AND (exit_code IS NULL OR exit_code = 0) GROUP BY command_line"@,
        )
    }
}

/// The statement that counts the successful runs of each of `n` commands.
pub fn frequencies_sql(n: usize) -> (r: Option<String>)
    ensures
        text::option_view(r) == frequencies_statement(n as nat),
{
    if n == 0 {
        return None;
    }
    let mut marks: Vec<Vec<char>> = Vec::new();
    let mut i: usize = 0;
    while i < n
        invariant
            i <= n,
            text::views(marks@) == Seq::new(i as nat, |k: int| "?"@),
        decreases n - i,
    {
        let mark = text::chars_of("?");
        assert(text::views(marks@.push(mark)) =~= text::views(marks@).push("?"@));
        assert(text::views(marks@).push("?"@) =~= Seq::new((i + 1) as nat, |k: int| "?"@));
        marks.push(mark);
        i += 1;
    }
    let list = text::joined(&marks, ", ");
    let mut out = text::chars_of(
        "SELECT command_line, COUNT(*) as cnt FROM command_journal WHERE command_line IN (",
    );
    text::extend(&mut out, &list);
    text::extend_str(
        &mut out,
        ") AND (exit_code IS NULL OR exit_code = 0) GROUP BY command_line",
    );
    Some(text::string_of(&out))
}

// ----------------------------------------------------------------- integers

/// The signed number that stands for `n` in the database: `n` itself, less
/// 2^64 where it is 2^63 or more.
pub open spec fn signed(n: u64) -> int {
    if n <= i64::MAX {
        n as int
    } else {
        n - 0x1_0000_0000_0000_0000
    }
}

/// The number that a signed number in the database stands for.
pub open spec fn unsigned(n: i64) -> int {
    if n >= 0 {
        n as int
    } else {
        n + 0x1_0000_0000_0000_0000
    }
}

/// The signed number that stands for `n` in the database.
pub fn to_sql_integer(n: u64) -> (r: i64)
    ensures
        r == signed(n),
{
    let r: i64 = #[verifier::truncate]
    (n as i64);
    assert(n <= 0x7FFF_FFFF_FFFF_FFFFu64 ==> #[verifier::truncate] (n as i64) == n)
        by (bit_vector);
    assert(n > 0x7FFF_FFFF_FFFF_FFFFu64 ==> #[verifier::truncate] (n as i64) == n
        - 0x1_0000_0000_0000_0000) by (bit_vector);
    r
}

/// The number that a signed number in the database stands for.
pub fn from_sql_integer(n: i64) -> (r: u64)
    ensures
        r == unsigned(n),
{
    let r: u64 = #[verifier::truncate]
    (n as u64);
    assert(n >= 0i64 ==> #[verifier::truncate] (n as u64) == n) by (bit_vector);
    assert(n < 0i64 ==> #[verifier::truncate] (n as u64) == n + 0x1_0000_0000_0000_0000)
        by (bit_vector);
    r
}

/// A number that was written to the database is read back from it.
pub proof fn law_integers_read_back(n: u64)
    ensures
        i64::MIN <= signed(n) <= i64::MAX,
        unsigned(signed(n) as i64) == n,
{
}

// ------------------------------------------------------------------- writes

/// A row of the journal as it is written.
#[derive(Debug, Clone)]
pub struct JournalRow {
    pub command_line: String,
    pub cwd: String,
    pub exit_code: Option<i32>,
    pub duration_ms: Option<i64>,
    pub session_id: String,
    pub timestamp: i64,
}

/// A change of the statistics.
#[derive(Debug, Clone)]
pub enum StatChange {
    /// One more time that `next` followed `prev`.
    Transition { prev: String, next: String },
    /// One more successful run of a command.
    Command { command_line: String, timestamp: i64 },
    /// One more successful run of a command in a directory.
    CwdCommand { cwd: String, command_line: String, timestamp: i64 },
}

/// The command counts as a success: it ended well, or how it ended is unknown.
pub open spec fn succeeded(exit_code: Option<i32>) -> bool {
    exit_code is None || exit_code == Some(0i32)
}

/// The row that records `e`.
pub open spec fn records(row: JournalRow, e: JournalEntry) -> bool {
    &&& row.command_line@ == e.command_line@
    &&& row.cwd@ == e.cwd@
    &&& row.exit_code == e.exit_code
    &&& match (row.duration_ms, e.duration_ms) {
        (Some(d), Some(n)) => d == signed(n),
        (None, None) => true,
        _ => false,
    }
    &&& row.session_id@ == e.session_id@
    &&& row.timestamp == signed(e.timestamp)
}

/// The row that records a command.
pub fn journal_row(entry: &JournalEntry) -> (r: JournalRow)
    ensures
        records(r, *entry),
{
    JournalRow {
        command_line: entry.command_line.clone(),
        cwd: entry.cwd.clone(),
        exit_code: entry.exit_code,
        duration_ms: match entry.duration_ms {
            Some(n) => Some(to_sql_integer(n)),
            None => None,
        },
        session_id: entry.session_id.clone(),
        timestamp: to_sql_integer(entry.timestamp),
    }
}

/// The contents of a `StatChange`.
pub enum StatChangeView {
    Transition { prev: Seq<char>, next: Seq<char> },
    Command { command_line: Seq<char>, timestamp: int },
    CwdCommand { cwd: Seq<char>, command_line: Seq<char>, timestamp: int },
}

impl View for StatChange {
    type V = StatChangeView;

    open spec fn view(&self) -> StatChangeView {
        match *self {
            StatChange::Transition { prev, next } => StatChangeView::Transition {
                prev: prev@,
                next: next@,
            },
            StatChange::Command { command_line, timestamp } => StatChangeView::Command {
                command_line: command_line@,
                timestamp: timestamp as int,
            },
            StatChange::CwdCommand { cwd, command_line, timestamp } => StatChangeView::CwdCommand {
                cwd: cwd@,
                command_line: command_line@,
                timestamp: timestamp as int,
            },
        }
    }
}

/// The contents of a list of changes.
pub open spec fn change_views(s: Seq<StatChange>) -> Seq<StatChangeView> {
    s.map_values(|c: StatChange| c@)
}

/// What a command changes in the statistics, given the command before it in
/// its session.
pub open spec fn changes_of(
    command_line: Seq<char>,
    cwd: Seq<char>,
    exit_code: Option<i32>,
    timestamp: int,
    previous: Option<Seq<char>>,
) -> Seq<StatChangeView> {
    let transition = match previous {
        Some(prev) => seq![StatChangeView::Transition { prev, next: command_line }],
        None => Seq::empty(),
    };
    let runs = if succeeded(exit_code) {
        seq![
            StatChangeView::Command { command_line, timestamp },
            StatChangeView::CwdCommand { cwd, command_line, timestamp },
        ]
    } else {
        Seq::empty()
    };
    transition + runs
}

/// What a recorded command changes in the statistics, in order, given the
/// command before it in its session.
pub fn stat_changes(row: &JournalRow, previous: Option<&str>) -> (r: Vec<StatChange>)
    ensures
        change_views(r@) == changes_of(
            row.command_line@,
            row.cwd@,
            row.exit_code,
            row.timestamp as int,
            match previous {
                Some(p) => Some(p@),
                None => None,
            },
        ),
{
    let mut out: Vec<StatChange> = Vec::new();
    if let Some(prev) = previous {
        out.push(
            StatChange::Transition {
                prev: text::copy_str(prev),
                next: row.command_line.clone(),
            },
        );
    }
    let success: bool = match row.exit_code {
        None => true,
        Some(code) => code == 0,
    };
    if success {
        out.push(
            StatChange::Command {
                command_line: row.command_line.clone(),
                timestamp: row.timestamp,
            },
        );
        out.push(
            StatChange::CwdCommand {
                cwd: row.cwd.clone(),
                command_line: row.command_line.clone(),
                timestamp: row.timestamp,
            },
        );
    }
    assert(change_views(out@) =~= changes_of(
        row.command_line@,
        row.cwd@,
        row.exit_code,
        row.timestamp as int,
        match previous {
            Some(p) => Some(p@),
            None => None,
        },
    ));
    out
}

/// Which statistics are made anew from the journal: those that are empty.
#[derive(Debug, Clone, Copy, PartialEq, Eq, Structural)]
pub struct Backfill {
    pub commands: bool,
    pub cwd_commands: bool,
    pub transitions: bool,
}

/// Which statistics are made anew from the journal, given how many rows each
/// of them has.
pub fn backfill_plan(commands: i64, cwd_commands: i64, transitions: i64) -> (r: Backfill)
    ensures
        r.commands == (commands == 0),
        r.cwd_commands == (cwd_commands == 0),
        r.transitions == (transitions == 0),
{
    Backfill {
        commands: commands == 0,
        cwd_commands: cwd_commands == 0,
        transitions: transitions == 0,
    }
}

/// Something kept at `cached_at` may still be used at `now_ms`.
pub open spec fn is_fresh(cached_at: u64, ttl_ms: u64, now_ms: u64) -> bool {
    now_ms - cached_at <= ttl_ms
}

/// Whether something kept at `cached_at` may still be used at `now_ms`.
pub fn fresh(cached_at: u64, ttl_ms: u64, now_ms: u64) -> (r: bool)
    ensures
        r == is_fresh(cached_at, ttl_ms, now_ms),
{
    now_ms.saturating_sub(cached_at) <= ttl_ms
}

/// The listing that was kept, if it may still be used.
pub fn usable_cache(
    row: Option<PathCacheEntry>,
    ttl_ms: u64,
    now_ms: u64,
) -> (r: Option<PathCacheEntry>)
    ensures
        r == match row {
            Some(entry) if is_fresh(entry.cached_at, ttl_ms, now_ms) => Some(entry),
            _ => None,
        },
{
    match row {
        Some(entry) => {
            if fresh(entry.cached_at, ttl_ms, now_ms) {
                Some(entry)
            } else {
                None
            }
        },
        None => None,
    }
}

/// Texts within a query's bounds are those that begin with its prefix, except
/// those that go on with the greatest character.
pub proof fn law_query_finds_prefix(q: PrefixQuery, prefix: Seq<char>, limit: int, s: Seq<char>)
    requires
        q.asks(prefix, limit),
    ensures
        !text_before(s, q.prefix@) && text_before(s, q.upper@) <==> text::begins(s, prefix) && (
        s.len() > prefix.len() ==> s[prefix.len() as int] != LAST_CHARACTER),
        q.limit == limit,
{
    law_range_is_prefix(s, prefix);
}

/// A query in a directory, and one behind another command, asks for that
/// directory, and for that command.
pub proof fn law_query_names_place(
    c: CwdQuery,
    cwd: Seq<char>,
    t: TransitionQuery,
    prev: Seq<char>,
    prefix: Seq<char>,
    limit: int,
    s: Seq<char>,
)
    requires
        c.asks(cwd, prefix, limit),
        t.asks(prev, prefix, limit),
    ensures
        c.cwd@ == cwd,
        t.prev_command@ == prev,
        c.commands.limit == limit,
        t.commands.limit == limit,
        text_before(s, c.commands.upper@) && !text_before(s, c.commands.prefix@)
            <==> text::begins(s, prefix) && (s.len() > prefix.len() ==> s[prefix.len() as int]
            != LAST_CHARACTER),
        text_before(s, t.commands.upper@) && !text_before(s, t.commands.prefix@)
            <==> text::begins(s, prefix) && (s.len() > prefix.len() ==> s[prefix.len() as int]
            != LAST_CHARACTER),
{
    law_range_is_prefix(s, prefix);
}

/// One more command is one more question mark behind a comma.
pub proof fn law_one_more_mark(n: nat)
    ensures
        question_marks(0) == Seq::<char>::empty(),
        question_marks(1) == seq!['?'],
        n > 0 ==> question_marks(n + 1) == question_marks(n) + seq![',', ' ', '?'],
        frequencies_statement(0) is None,
        n > 0 ==> frequencies_statement(n) == Some(
            "SELECT command_line, COUNT(*) as cnt FROM command_journal WHERE command_line IN ("@
                + question_marks(n)
                + ") AND (exit_code IS NULL OR exit_code = 0) GROUP BY command_line"@,
        ),
{
    let f = |i: int| "?"@;
    reveal_strlit("?");
    reveal_strlit(", ");
    assert("?"@ =~= seq!['?']);
    assert(Seq::new(0, f) =~= Seq::<Seq<char>>::empty());
    assert(Seq::new(1, f)[0] == "?"@);
    text::law_join(Seq::new(n, f), ", "@, "?"@);
    assert(Seq::new(n + 1, f) =~= Seq::new(n, f).push("?"@));
    if n > 0 {
        assert(question_marks(n) + ", "@ + "?"@ =~= question_marks(n) + seq![',', ' ', '?']);
    }
}

/// A number that fits is kept as it is; any other is kept as the negative number
/// that is less by 2^64, and a negative number is read as the one that is more.
pub proof fn law_kept_as_it_is(n: u64, k: i64)
    ensures
        n <= 0x7FFF_FFFF_FFFF_FFFF ==> signed(n) == n,
        n > 0x7FFF_FFFF_FFFF_FFFF ==> signed(n) < 0 && signed(n) + 0x1_0000_0000_0000_0000 == n,
        k >= 0 ==> unsigned(k) == k,
        k < 0 ==> unsigned(k) == k + 0x1_0000_0000_0000_0000,
{
}

/// A row of the journal keeps all of the command that it records: its times are
/// read back as they were.
pub proof fn law_row_keeps_command(row: JournalRow, e: JournalEntry)
    requires
        records(row, e),
    ensures
        row.command_line@ == e.command_line@,
        row.cwd@ == e.cwd@,
        row.session_id@ == e.session_id@,
        row.exit_code == e.exit_code,
        unsigned(row.timestamp) == e.timestamp,
        row.duration_ms is Some <==> e.duration_ms is Some,
        e.duration_ms is Some ==> unsigned(row.duration_ms->0) == e.duration_ms->0,
{
}

/// A command with another before it is one more transition, first of all; one
/// that ended well, or of which it is not known, is one more run and one more
/// run in its directory; one that failed is neither.
pub proof fn law_changes(
    command_line: Seq<char>,
    cwd: Seq<char>,
    exit_code: Option<i32>,
    timestamp: int,
    previous: Option<Seq<char>>,
)
    ensures
        ({
            let c = changes_of(command_line, cwd, exit_code, timestamp, previous);
            let k: int = if previous is Some {
                1
            } else {
                0
            };
            let well = exit_code is None || exit_code->0 == 0;
            &&& previous is Some ==> c.len() > 0 && c[0] == (StatChangeView::Transition {
                prev: previous->0,
                next: command_line,
            })
            &&& well ==> {
                &&& c.len() == k + 2
                &&& c[k] == (StatChangeView::Command { command_line, timestamp })
                &&& c[k + 1] == (StatChangeView::CwdCommand { cwd, command_line, timestamp })
            }
            &&& !well ==> c.len() == k
        }),
{
}

/// What was kept may be used until its time has run out, and not after; what was
/// kept later than now may be used.
pub proof fn law_fresh_until(cached_at: u64, ttl_ms: u64, now_ms: u64)
    ensures
        now_ms <= cached_at ==> is_fresh(cached_at, ttl_ms, now_ms),
        now_ms == cached_at + ttl_ms ==> is_fresh(cached_at, ttl_ms, now_ms),
        now_ms > cached_at + ttl_ms ==> !is_fresh(cached_at, ttl_ms, now_ms),
        now_ms < cached_at + ttl_ms ==> is_fresh(cached_at, ttl_ms, now_ms),
{
}

} // verus!
