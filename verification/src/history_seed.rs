//! The history file of the shell as a first source of commands.
use vstd::hash_map::StringHashMap;
use vstd::prelude::*;
use crate::db::models::SeededCommandStat;
use crate::number;
use crate::order;
use crate::order::Weighted;
use crate::ranking;
use crate::text;

verus! {

/// A command of the history file.
#[derive(Debug, Clone, PartialEq, Eq)]
pub struct ParsedHistoryLine {
    pub command_line: String,
    pub timestamp_ms: Option<u64>,
}

/// The contents of a `ParsedHistoryLine`.
pub struct HistoryLineView {
    pub command_line: Seq<char>,
    pub timestamp_ms: Option<u64>,
}

impl View for ParsedHistoryLine {
    type V = HistoryLineView;

    open spec fn view(&self) -> HistoryLineView {
        HistoryLineView { command_line: self.command_line@, timestamp_ms: self.timestamp_ms }
    }
}

/// What was taken from the history file.
#[derive(Debug, Clone, PartialEq, Eq)]
pub struct HistorySeedSummary {
    pub source_path: Option<String>,
    pub parsed_entries: usize,
    pub imported_commands: usize,
}

/// The contents of a `SeededCommandStat`.
pub struct StatView {
    pub command_line: Seq<char>,
    pub latest_timestamp: u64,
    pub sample_count: nat,
}

impl View for SeededCommandStat {
    type V = StatView;

    open spec fn view(&self) -> StatView {
        StatView {
            command_line: self.command_line@,
            latest_timestamp: self.latest_timestamp,
            sample_count: self.sample_count as nat,
        }
    }
}

impl Weighted for StatView {
    open spec fn weight(self) -> int {
        self.latest_timestamp as int
    }
}

/// The contents of a list of statistics.
pub open spec fn stat_views(s: Seq<SeededCommandStat>) -> Seq<StatView> {
    s.map_values(|stat: SeededCommandStat| stat@)
}

/// The contents of a list of commands.
pub open spec fn line_views(s: Seq<ParsedHistoryLine>) -> Seq<HistoryLineView> {
    s.map_values(|line: ParsedHistoryLine| line@)
}

// -------------------------------------------------------------------- lines

/// A number of seconds in milliseconds, up to the greatest number.
pub open spec fn millis(secs: nat) -> u64 {
    if secs * 1000 > u64::MAX {
        u64::MAX
    } else {
        (secs * 1000) as u64
    }
}

/// The time in the header of an extended line.
pub open spec fn header_time(header: Seq<char>) -> Option<u64> {
    match number::read_natural(
        text::trim(text::split_on(header, ':')[0]),
        u64::MAX as nat,
    ) {
        Some(secs) => Some(millis(secs)),
        None => None,
    }
}

/// The command of an extended line: a colon and a blank, a header that begins
/// with a time in seconds, a semicolon, and a command.
pub open spec fn extended_line(line: Seq<char>) -> Option<HistoryLineView> {
    let rest = line.skip(2);
    let semi = text::first_at(rest, ';');
    let command = text::trim(rest.skip(semi + 1));
    if text::begins(line, ": "@) && semi < rest.len() && header_time(rest.take(semi)) is Some
        && command.len() > 0 {
        Some(
            HistoryLineView {
                command_line: command,
                timestamp_ms: header_time(rest.take(semi)),
            },
        )
    } else {
        None
    }
}

/// The command of a line: nothing on a blank line, the command and its time on
/// an extended one, else the whole line.
pub open spec fn history_line(line: Seq<char>) -> Option<HistoryLineView> {
    if text::trim(line).len() == 0 {
        None
    } else if extended_line(line) is Some {
        extended_line(line)
    } else {
        Some(HistoryLineView { command_line: line, timestamp_ms: None })
    }
}

fn parse_header(header: &Vec<char>) -> (r: Option<u64>)
    ensures
        r == header_time(header@),
{
    let fields = text::split(header, ':');
    assert(text::views(fields@)[0] == fields@[0]@);
    let field = text::trimmed(&fields[0]);
    match number::parse_u64(&field) {
        Some(secs) => Some(
            match secs.checked_mul(1_000) {
                Some(ms) => ms,
                None => u64::MAX,
            },
        ),
        None => None,
    }
}

fn parse_extended(v: &Vec<char>) -> (r: Option<ParsedHistoryLine>)
    ensures
        match r {
            Some(p) => extended_line(v@) == Some(p@),
            None => extended_line(v@) is None,
        },
{
    if !text::starts_with_str(v, ": ") {
        return None;
    }
    proof {
        reveal_strlit(": ");
    }
    let rest = text::part(v, 2, v.len());
    assert(rest@ =~= v@.skip(2));
    let len: usize = rest.len();
    let semi: usize = text::find(&rest, ';');
    if semi == len {
        return None;
    }
    let header = text::part(&rest, 0, semi);
    assert(header@ =~= rest@.take(semi as int));
    let tail = text::part(&rest, semi + 1, len);
    assert(tail@ =~= rest@.skip(semi + 1));
    let command = text::trimmed(&tail);
    match parse_header(&header) {
        Some(timestamp) => {
            if command.len() == 0 {
                return None;
            }
            Some(
                ParsedHistoryLine {
                    command_line: text::string_of(&command),
                    timestamp_ms: Some(timestamp),
                },
            )
        },
        None => None,
    }
}

/// The command of a line of the history file.
pub fn parse_history_line(line: &str) -> (r: Option<ParsedHistoryLine>)
    ensures
        match r {
            Some(p) => history_line(line@) == Some(p@),
            None => history_line(line@) is None,
        },
{
    let v = text::chars_of(line);
    let t = text::trimmed(&v);
    if t.len() == 0 {
        return None;
    }
    match parse_extended(&v) {
        Some(p) => Some(p),
        None => Some(
            ParsedHistoryLine { command_line: text::copy_str(line), timestamp_ms: None },
        ),
    }
}

// --------------------------------------------------------------- statistics

/// The command of a line, as a function of the line.
pub open spec fn line_parser() -> spec_fn(Seq<char>) -> Option<HistoryLineView> {
    |line: Seq<char>| history_line(line)
}

/// The last `max` items, or all where there are fewer.
pub open spec fn last_of<T>(s: Seq<T>, max: int) -> Seq<T> {
    if s.len() > max {
        s.skip(s.len() - max)
    } else {
        s
    }
}

/// The commands that count: the last `max` of the file.
pub open spec fn recent(lines: Seq<Seq<char>>, max: usize) -> Seq<HistoryLineView> {
    last_of(lines.filter_map(line_parser()), max as int)
}

/// The time of the `i`th of `total` commands: its own, or one second for each
/// command after it before the time of the file.
pub open spec fn time_of(line: HistoryLineView, i: int, total: int, anchor_ms: u64) -> u64 {
    match line.timestamp_ms {
        Some(t) => t,
        None => if anchor_ms > (total - 1 - i) * 1000 {
            (anchor_ms - (total - 1 - i) * 1000) as u64
        } else {
            0
        },
    }
}

/// The place of a command among the statistics, or their number.
pub open spec fn stat_place(stats: Seq<StatView>, command_line: Seq<char>) -> int
    decreases stats.len(),
{
    if stats.len() == 0 || stats[0].command_line == command_line {
        0
    } else {
        1 + stat_place(stats.skip(1), command_line)
    }
}

/// The statistics with one more run of a command.
pub open spec fn counted(stats: Seq<StatView>, command_line: Seq<char>, time: u64) -> Seq<
    StatView,
> {
    let p = stat_place(stats, command_line);
    if p < stats.len() {
        stats.update(
            p,
            StatView {
                command_line,
                latest_timestamp: if stats[p].latest_timestamp > time {
                    stats[p].latest_timestamp
                } else {
                    time
                },
                sample_count: stats[p].sample_count + 1,
            },
        )
    } else {
        stats.push(StatView { command_line, latest_timestamp: time, sample_count: 1 })
    }
}

/// The statistics of the first `n` commands.
pub open spec fn tallied(entries: Seq<HistoryLineView>, n: int, anchor_ms: u64) -> Seq<StatView>
    decreases n,
{
    if n <= 0 {
        Seq::empty()
    } else {
        counted(
            tallied(entries, n - 1, anchor_ms),
            entries[n - 1].command_line,
            time_of(entries[n - 1], n - 1, entries.len() as int, anchor_ms),
        )
    }
}

/// The statistics of the commands, the latest first.
pub open spec fn seeded_stats(entries: Seq<HistoryLineView>, anchor_ms: u64) -> Seq<StatView> {
    order::ranked(tallied(entries, entries.len() as int, anchor_ms))
}

proof fn lemma_stat_place(stats: Seq<StatView>, command_line: Seq<char>)
    ensures
        0 <= stat_place(stats, command_line) <= stats.len(),
        stat_place(stats, command_line) < stats.len() ==> stats[stat_place(
            stats,
            command_line,
        )].command_line == command_line,
        forall|i: int|
            0 <= i < stat_place(stats, command_line) ==> (#[trigger] stats[i]).command_line
                != command_line,
    decreases stats.len(),
{
    if stats.len() > 0 && stats[0].command_line != command_line {
        lemma_stat_place(stats.skip(1), command_line);
        assert forall|i: int| 0 <= i < stat_place(stats, command_line) implies (
        #[trigger] stats[i]).command_line != command_line by {
            if i > 0 {
                assert(stats.skip(1)[i - 1] == stats[i]);
            }
        }
    }
}

/// The commands that count, in order.
fn recent_entries(lines: &Vec<String>, max_entries: usize) -> (r: Vec<ParsedHistoryLine>)
    ensures
        line_views(r@) == recent(text::string_views(lines@), max_entries),
{
    let ghost v = text::string_views(lines@);
    let ghost parse = line_parser();
    let mut all: Vec<ParsedHistoryLine> = Vec::new();
    let mut i: usize = 0;
    assert(line_views(all@) =~= v.take(0).filter_map(parse));
    while i < lines.len()
        invariant
            i <= lines@.len(),
            v == text::string_views(lines@),
            parse == line_parser(),
            line_views(all@) == v.take(i as int).filter_map(parse),
        decreases lines@.len() - i,
    {
        proof {
            assert(v.take(i + 1).drop_last() =~= v.take(i as int));
            assert(v.take(i + 1).last() == lines@[i as int]@);
        }
        if let Some(p) = parse_history_line(lines[i].as_str()) {
            assert(line_views(all@.push(p)) =~= line_views(all@) + seq![p@]);
            all.push(p);
        }
        i += 1;
    }
    assert(v.take(i as int) =~= v);
    assert(line_views(all@).len() == all@.len());
    if all.len() > max_entries {
        let cut: usize = all.len() - max_entries;
        let ghost before = all@;
        let last = all.split_off(cut);
        assert(line_views(last@) =~= line_views(before).skip(cut as int));
        return last;
    }
    all
}

fn time(
    timestamp_ms: Option<u64>,
    index: usize,
    total: usize,
    anchor_ms: u64,
) -> (r: u64)
    requires
        index < total,
    ensures
        forall|line: HistoryLineView|
            line.timestamp_ms == timestamp_ms ==> r == #[trigger] time_of(
                line,
                index as int,
                total as int,
                anchor_ms,
            ),
{
    match timestamp_ms {
        Some(t) => t,
        None => {
            let offset: u64 = (total - 1 - index) as u64;
            match offset.checked_mul(1_000) {
                Some(behind) => anchor_ms.saturating_sub(behind),
                None => 0,
            }
        },
    }
}

/// The statistics of the commands, the latest first.
fn aggregate(entries: Vec<ParsedHistoryLine>, anchor_ms: u64) -> (r: Vec<SeededCommandStat>)
    ensures
        stat_views(r@) == seeded_stats(line_views(entries@), anchor_ms),
{
    let total: usize = entries.len();
    let ghost v = line_views(entries@);
    let ghost all = entries@;
    let mut stats: Vec<SeededCommandStat> = Vec::new();
    let mut places: StringHashMap<usize> = StringHashMap::new();
    let mut i: usize = 0;
    assert(stat_views(stats@) =~= tallied(v, 0, anchor_ms));
    for entry in it: entries
        invariant
            it.seq() == all,
            v == line_views(all),
            total == all.len(),
            i == it.index(),
            i <= total,
            stats@.len() <= i,
            forall|k: int| 0 <= k < stats@.len() ==> (#[trigger] stats@[k]).sample_count <= i,
            stat_views(stats@) == tallied(v, i as int, anchor_ms),
            forall|c: Seq<char>| #[trigger]
                places@.contains_key(c) ==> places@[c] < stats@.len()
                    && stats@[places@[c] as int].command_line@ == c,
            forall|k: int|
                0 <= k < stats@.len() ==> places@.contains_key(
                    (#[trigger] stats@[k]).command_line@,
                ) && places@[stats@[k].command_line@] == k,
    {
        let ghost before = stats@;
        let ghost seen = places@;
        let ghost c = entry.command_line@;
        let t: u64 = time(entry.timestamp_ms, i, total, anchor_ms);
        proof {
            assert(v[i as int] == entry@);
            assert(t == time_of(entry@, i as int, total as int, anchor_ms));
            lemma_stat_place(stat_views(before), c);
        }
        match places.get(entry.command_line.as_str()) {
            Some(place) => {
                let p: usize = *place;
                proof {
                    let q = stat_place(stat_views(before), c);
                    assert(stat_views(before)[p as int].command_line == c);
                    assert(q <= p);
                    assert(stat_views(before)[q].command_line == before[q].command_line@);
                    assert(q == p);
                }
                let latest: u64 = if stats[p].latest_timestamp > t {
                    stats[p].latest_timestamp
                } else {
                    t
                };
                let n: u64 = stats[p].sample_count + 1;
                let stat = SeededCommandStat {
                    command_line: entry.command_line,
                    latest_timestamp: latest,
                    sample_count: n,
                };
                stats.set(p, stat);
                assert(stat_views(stats@) =~= counted(stat_views(before), c, t));
            },
            None => {
                proof {
                    let q = stat_place(stat_views(before), c);
                    if q < before.len() {
                        assert(before[q].command_line@ == c);
                    }
                }
                let stat = SeededCommandStat {
                    command_line: entry.command_line.clone(),
                    latest_timestamp: t,
                    sample_count: 1,
                };
                places.insert(entry.command_line, stats.len());
                stats.push(stat);
                assert(stat_views(stats@) =~= counted(stat_views(before), c, t));
            },
        }
        i += 1;
    }
    let ghost f = |stat: SeededCommandStat| stat@;
    proof {
        order::lemma_ranked_map(stats@, f);
    }
    order::sorted_by_weight(stats)
}

/// The statistics of the last `max_entries` commands of a history file with the
/// given lines, the latest first, and how many commands count. A command
/// without a time takes its time from `anchor_ms`, the time of the file.
pub fn collect_seeded_stats(
    lines: &Vec<String>,
    max_entries: usize,
    anchor_ms: u64,
) -> (r: (Vec<SeededCommandStat>, usize))
    ensures
        ({
            let entries = recent(text::string_views(lines@), max_entries);
            &&& stat_views(r.0@) == seeded_stats(entries, anchor_ms)
            &&& r.1 == entries.len()
        }),
{
    let entries = recent_entries(lines, max_entries);
    let total: usize = entries.len();
    (aggregate(entries, anchor_ms), total)
}

// ------------------------------------------------------------------ seeding

/// What the seeded statistics are replaced by, and what to say about it.
#[derive(Debug, Clone)]
pub struct SeedPlan {
    pub stats: Vec<SeededCommandStat>,
    pub summary: HistorySeedSummary,
}

/// Plans the seeding from the history file at `path`, if it is wanted, with the
/// given lines, if it is there. What was seeded before is replaced in any case.
pub fn prime_store_from_histfile(
    path: Option<&str>,
    lines: Option<&Vec<String>>,
    max_entries: usize,
    anchor_ms: u64,
) -> (r: SeedPlan)
    ensures
        text::option_view(r.summary.source_path) == ranking::slice_view(path),
        r.summary.imported_commands == r.stats@.len(),
        match lines {
            Some(l) if path is Some => {
                let entries = recent(text::string_views(l@), max_entries);
                &&& stat_views(r.stats@) == seeded_stats(entries, anchor_ms)
                &&& r.summary.parsed_entries == entries.len()
            },
            _ => r.stats@.len() == 0 && r.summary.parsed_entries == 0,
        },
{
    let source_path: Option<String> = match path {
        Some(p) => Some(text::copy_str(p)),
        None => None,
    };
    if path.is_some() {
        if let Some(l) = lines {
            let (stats, parsed_entries) = collect_seeded_stats(l, max_entries, anchor_ms);
            let imported_commands: usize = stats.len();
            return SeedPlan {
                stats,
                summary: HistorySeedSummary { source_path, parsed_entries, imported_commands },
            };
        }
    }
    SeedPlan {
        stats: Vec::new(),
        summary: HistorySeedSummary { source_path, parsed_entries: 0, imported_commands: 0 },
    }
}

// --------------------------------------------------------------------- laws

/// No more commands count than are wanted.
pub proof fn law_recent_is_bounded(lines: Seq<Seq<char>>, max: usize)
    ensures
        recent(lines, max).len() <= max,
{
}

/// The sum of the runs.
pub open spec fn runs(stats: Seq<StatView>) -> nat
    decreases stats.len(),
{
    if stats.len() == 0 {
        0
    } else {
        runs(stats.drop_last()) + stats.last().sample_count
    }
}

proof fn lemma_runs_update(stats: Seq<StatView>, p: int, stat: StatView)
    requires
        0 <= p < stats.len(),
    ensures
        runs(stats.update(p, stat)) == runs(stats) + stat.sample_count - stats[p].sample_count,
    decreases stats.len(),
{
    let after = stats.update(p, stat);
    if p == stats.len() - 1 {
        assert(after.drop_last() =~= stats.drop_last());
    } else {
        lemma_runs_update(stats.drop_last(), p, stat);
        assert(after.drop_last() =~= stats.drop_last().update(p, stat));
    }
}

/// Every command that counts is counted once.
pub proof fn law_runs_add_up(entries: Seq<HistoryLineView>, n: int, anchor_ms: u64)
    requires
        0 <= n <= entries.len(),
    ensures
        runs(tallied(entries, n, anchor_ms)) == n,
    decreases n,
{
    if n > 0 {
        law_runs_add_up(entries, n - 1, anchor_ms);
        let stats = tallied(entries, n - 1, anchor_ms);
        let line = entries[n - 1];
        let t = time_of(line, n - 1, entries.len() as int, anchor_ms);
        let p = stat_place(stats, line.command_line);
        lemma_stat_place(stats, line.command_line);
        if p < stats.len() {
            lemma_runs_update(stats, p, counted(stats, line.command_line, t)[p]);
        } else {
            assert(counted(stats, line.command_line, t).drop_last() =~= stats);
        }
    }
}

/// Each command has one statistic.
pub proof fn law_commands_differ(entries: Seq<HistoryLineView>, n: int, anchor_ms: u64)
    requires
        0 <= n <= entries.len(),
    ensures
        forall|i: int, j: int|
            0 <= i < j < tallied(entries, n, anchor_ms).len() ==> (#[trigger] tallied(
                entries,
                n,
                anchor_ms,
            )[i]).command_line != (#[trigger] tallied(entries, n, anchor_ms)[j]).command_line,
    decreases n,
{
    if n > 0 {
        law_commands_differ(entries, n - 1, anchor_ms);
        let stats = tallied(entries, n - 1, anchor_ms);
        let line = entries[n - 1];
        let after = tallied(entries, n, anchor_ms);
        lemma_stat_place(stats, line.command_line);
        assert forall|i: int, j: int| 0 <= i < j < after.len() implies (
        #[trigger] after[i]).command_line != (#[trigger] after[j]).command_line by {
            if j < stats.len() {
                assert(after[i].command_line == stats[i].command_line);
                assert(after[j].command_line == stats[j].command_line);
            } else {
                assert(after[i] == stats[i]);
            }
        }
    }
}

/// The statistic of a command is not older than any of its runs.
pub proof fn law_latest_is_latest(entries: Seq<HistoryLineView>, n: int, i: int, anchor_ms: u64)
    requires
        0 <= i < n <= entries.len(),
    ensures
        exists|k: int|
            0 <= k < tallied(entries, n, anchor_ms).len() && (#[trigger] tallied(
                entries,
                n,
                anchor_ms,
            )[k]).command_line == entries[i].command_line && tallied(
                entries,
                n,
                anchor_ms,
            )[k].latest_timestamp >= time_of(entries[i], i, entries.len() as int, anchor_ms),
    decreases n,
{
    let stats = tallied(entries, n - 1, anchor_ms);
    let line = entries[n - 1];
    let after = tallied(entries, n, anchor_ms);
    let p = stat_place(stats, line.command_line);
    lemma_stat_place(stats, line.command_line);
    if i == n - 1 {
        assert(after[p].command_line == line.command_line);
    } else {
        law_latest_is_latest(entries, n - 1, i, anchor_ms);
        let k = choose|k: int|
            0 <= k < stats.len() && (#[trigger] stats[k]).command_line == entries[i].command_line
                && stats[k].latest_timestamp >= time_of(
                entries[i],
                i,
                entries.len() as int,
                anchor_ms,
            );
        assert(after[k].command_line == entries[i].command_line);
        assert(after[k].latest_timestamp >= stats[k].latest_timestamp);
    }
}

/// The seeded statistics are those of the commands, the latest first.
pub proof fn law_seeded_latest_first(entries: Seq<HistoryLineView>, anchor_ms: u64)
    ensures
        order::descending(seeded_stats(entries, anchor_ms)),
        seeded_stats(entries, anchor_ms).to_multiset() == tallied(
            entries,
            entries.len() as int,
            anchor_ms,
        ).to_multiset(),
{
    let t = tallied(entries, entries.len() as int, anchor_ms);
    order::law_ranked_descending(t);
    order::law_ranked_same_items(t);
}

/// A line of white space holds no command.
pub proof fn law_blank_line(line: Seq<char>)
    requires
        forall|i: int| 0 <= i < line.len() ==> text::is_space(#[trigger] line[i]),
    ensures
        history_line(line) is None,
{
    let none = Seq::<char>::empty();
    text::law_trim(line, none, none);
    assert(line + none + none =~= line);
}

/// A line that holds something is its command as it stands, unless a colon and a
/// blank stand before it and a semicolon in it.
pub proof fn law_plain_line(line: Seq<char>, at: int)
    requires
        0 <= at < line.len(),
        !text::is_space(line[at]),
        !(line.len() >= 2 && line[0] == ':' && line[1] == ' ') || !line.contains(';'),
    ensures
        history_line(line) == Some(HistoryLineView { command_line: line, timestamp_ms: None }),
{
    lemma_something_left(line, at);
    reveal_strlit(": ");
    if text::begins(line, ": "@) {
        assert(line.take(2)[0] == line[0] && line.take(2)[1] == line[1]);
        let rest = line.skip(2);
        let semi = text::first_at(rest, ';');
        text::lemma_first_at(rest, ';');
        if semi < rest.len() {
            assert(line[semi + 2] == ';');
            assert(line.contains(line[semi + 2]));
        }
    }
}

proof fn lemma_something_left(s: Seq<char>, at: int)
    requires
        0 <= at < s.len(),
        !text::is_space(s[at]),
    ensures
        text::trim(s).len() > 0,
{
    let t = text::trim_start(s);
    text::lemma_trim_start(s);
    text::lemma_trimmed_is_space(s);
    let cut = s.len() - t.len();
    if at < cut {
        assert(text::is_space(s[at]));
    }
    assert(t[at - cut] == s[at]);
    lemma_something_left_at_end(t, at - cut);
}

proof fn lemma_something_left_at_end(s: Seq<char>, at: int)
    requires
        0 <= at < s.len(),
        !text::is_space(s[at]),
    ensures
        text::trim_end(s).len() > 0,
    decreases s.len(),
{
    if text::is_space(s.last()) {
        assert(s.drop_last()[at] == s[at]);
        lemma_something_left_at_end(s.drop_last(), at);
    }
}

/// An extended line holds its command behind the semicolon, and the time at which
/// it was run, in seconds, at the front of what stands before: white space
/// around either does not matter, nor what follows the time behind a colon.
pub proof fn law_extended_line(
    b1: Seq<char>,
    secs: Seq<char>,
    b2: Seq<char>,
    more: Seq<char>,
    b3: Seq<char>,
    command: Seq<char>,
    b4: Seq<char>,
)
    requires
        forall|i: int| 0 <= i < b1.len() ==> text::is_space(#[trigger] b1[i]),
        forall|i: int| 0 <= i < b2.len() ==> text::is_space(#[trigger] b2[i]),
        forall|i: int| 0 <= i < b3.len() ==> text::is_space(#[trigger] b3[i]),
        forall|i: int| 0 <= i < b4.len() ==> text::is_space(#[trigger] b4[i]),
        secs.len() > 0,
        forall|i: int| 0 <= i < secs.len() ==> 48 <= (#[trigger] secs[i]) as u32 <= 57,
        number::digits_value(secs) <= u64::MAX,
        more.len() == 0 || more[0] == ':' && !more.contains(';'),
        command.len() > 0,
        !text::is_space(command[0]),
        !text::is_space(command.last()),
    ensures
        ({
            let line = seq![':', ' '] + (b1 + secs + b2 + more) + seq![';'] + (b3 + command + b4);
            let ms = number::digits_value(secs) * 1000;
            history_line(line) == Some(
                HistoryLineView {
                    command_line: command,
                    timestamp_ms: Some(
                        if ms <= u64::MAX {
                            ms as u64
                        } else {
                            u64::MAX
                        },
                    ),
                },
            )
        }),
{
    let header = b1 + secs + b2 + more;
    let tail = b3 + command + b4;
    let line = seq![':', ' '] + header + seq![';'] + tail;
    let time = b1 + secs + b2;
    reveal_strlit(": ");
    assert(line.take(2) =~= ": "@);
    assert(line[0] == ':');
    lemma_something_left(line, 0);
    let rest = line.skip(2);
    let n = header.len() as int;
    assert(rest =~= header + seq![';'] + tail);
    assert forall|i: int| 0 <= i < time.len() implies (#[trigger] time[i]) != ';' && time[i]
        != ':' by {
        if i < b1.len() {
            assert(time[i] == b1[i]);
        } else if i < b1.len() + secs.len() {
            assert(time[i] == secs[i - b1.len()]);
        } else {
            assert(time[i] == b2[i - b1.len() - secs.len()]);
        }
    }
    assert(header =~= time + more);
    assert forall|i: int| 0 <= i < n implies #[trigger] rest[i] != ';' by {
        if i < time.len() {
            assert(rest[i] == time[i]);
        } else {
            assert(rest[i] == more[i - time.len()]);
            assert(more.contains(more[i - time.len()]));
        }
    }
    text::lemma_first_at_is(rest, ';', n);
    assert(rest.take(n) =~= header);
    assert(rest.skip(n + 1) =~= tail);
    text::law_trim(b3, command, b4);
    assert forall|i: int| 0 <= i < time.len() implies time[i] != ':' by {
        assert(time[i] != ';');
    }
    if more.len() == 0 {
        assert(header =~= time);
        text::law_split_apart(time, ':', Seq::empty());
    } else {
        text::law_split_apart(time, ':', more.skip(1));
        assert(header =~= time + seq![':'] + more.skip(1));
    }
    assert(!text::is_space(secs[0])) by {
        assert(48 <= secs[0] as u32 <= 57);
    }
    assert(!text::is_space(secs[secs.len() - 1])) by {
        assert(48 <= secs[secs.len() - 1] as u32 <= 57);
    }
    text::law_trim(b1, secs, b2);
    number::law_read_natural(secs, u64::MAX as nat);
}

/// Line by line: one more command is one more that counts, and where there are
/// too many the oldest does not count any more.
pub proof fn law_one_more_line(lines: Seq<Seq<char>>, line: Seq<char>, max: usize)
    ensures
        ({
            let before = recent(lines, max);
            recent(lines.push(line), max) == (match history_line(line) {
                Some(entry) => if before.len() < max {
                    before.push(entry)
                } else {
                    before.push(entry).skip(1)
                },
                None => before,
            })
        }),
        recent(Seq::empty(), max) == Seq::<HistoryLineView>::empty(),
{
    let all = lines.filter_map(line_parser());
    let more = lines.push(line);
    assert(more.drop_last() =~= lines);
    assert(more.last() == line);
    match history_line(line) {
        Some(entry) => {
            assert(more.filter_map(line_parser()) =~= all.push(entry));
            let before = recent(lines, max);
            if before.len() < max {
                assert(recent(more, max) =~= before.push(entry));
            } else {
                assert(recent(more, max) =~= before.push(entry).skip(1));
            }
        },
        None => {
            assert(more.filter_map(line_parser()) =~= all);
        },
    }
    assert(Seq::<Seq<char>>::empty().filter_map(line_parser()) =~= Seq::<
        HistoryLineView,
    >::empty());
}

/// How often a command is among the first `n` entries.
pub open spec fn times_run(entries: Seq<HistoryLineView>, command_line: Seq<char>, n: int) -> nat
    decreases n,
{
    if n <= 0 {
        0
    } else {
        times_run(entries, command_line, n - 1) + if entries[n - 1].command_line == command_line {
            1nat
        } else {
            0nat
        }
    }
}

proof fn lemma_not_run(entries: Seq<HistoryLineView>, command_line: Seq<char>, n: int)
    requires
        0 <= n <= entries.len(),
        forall|i: int| 0 <= i < n ==> (#[trigger] entries[i]).command_line != command_line,
    ensures
        times_run(entries, command_line, n) == 0,
    decreases n,
{
    if n > 0 {
        lemma_not_run(entries, command_line, n - 1);
    }
}

/// The statistic says what the first `n` entries say of its command.
pub open spec fn tells(
    stat: StatView,
    entries: Seq<HistoryLineView>,
    n: int,
    anchor_ms: u64,
) -> bool {
    let total = entries.len() as int;
    &&& stat.sample_count == times_run(entries, stat.command_line, n)
    &&& stat.sample_count > 0
    &&& forall|i: int|
        0 <= i < n && (#[trigger] entries[i]).command_line == stat.command_line ==> time_of(
            entries[i],
            i,
            total,
            anchor_ms,
        ) <= stat.latest_timestamp
    &&& exists|i: int|
        0 <= i < n && (#[trigger] entries[i]).command_line == stat.command_line && time_of(
            entries[i],
            i,
            total,
            anchor_ms,
        ) == stat.latest_timestamp
}

proof fn lemma_stats_tell(entries: Seq<HistoryLineView>, n: int, k: int, anchor_ms: u64)
    requires
        0 <= n <= entries.len(),
        0 <= k < tallied(entries, n, anchor_ms).len(),
    ensures
        tells(tallied(entries, n, anchor_ms)[k], entries, n, anchor_ms),
    decreases n,
{
    let total = entries.len() as int;
    let stats = tallied(entries, n - 1, anchor_ms);
    let line = entries[n - 1];
    let c = line.command_line;
    let t = time_of(line, n - 1, total, anchor_ms);
    let p = stat_place(stats, c);
    let stat = tallied(entries, n, anchor_ms)[k];
    lemma_stat_place(stats, c);
    if k < stats.len() {
        lemma_stats_tell(entries, n - 1, k, anchor_ms);
        law_commands_differ(entries, n - 1, anchor_ms);
        let old = stats[k];
        let i = choose|i: int|
            0 <= i < n - 1 && (#[trigger] entries[i]).command_line == old.command_line && time_of(
                entries[i],
                i,
                total,
                anchor_ms,
            ) == old.latest_timestamp;
        if k == p {
            assert(entries[n - 1].command_line == c);
            assert(time_of(entries[i], i, total, anchor_ms) == old.latest_timestamp);
        } else {
            if old.command_line == c {
                assert(p <= k);
                assert(stats[p].command_line != stats[k].command_line);
            }
            assert(entries[i].command_line == stat.command_line);
        }
    } else {
        assert forall|i: int| 0 <= i < n - 1 implies (#[trigger] entries[i]).command_line != c by {
            if entries[i].command_line == c {
                law_latest_is_latest(entries, n - 1, i, anchor_ms);
                let m = choose|m: int|
                    0 <= m < stats.len() && (#[trigger] stats[m]).command_line
                        == entries[i].command_line && stats[m].latest_timestamp >= time_of(
                        entries[i],
                        i,
                        total,
                        anchor_ms,
                    );
                assert(stats[m].command_line != c);
            }
        }
        lemma_not_run(entries, c, n - 1);
        assert(entries[n - 1].command_line == c);
    }
}

proof fn lemma_seeded_contains(entries: Seq<HistoryLineView>, anchor_ms: u64, stat: StatView)
    ensures
        seeded_stats(entries, anchor_ms).contains(stat) <==> tallied(
            entries,
            entries.len() as int,
            anchor_ms,
        ).contains(stat),
{
    broadcast use vstd::seq_lib::group_to_multiset_ensures;

    let t = tallied(entries, entries.len() as int, anchor_ms);
    order::law_ranked_same_items(t);
    assert(order::ranked(t).to_multiset().count(stat) == t.to_multiset().count(stat));
}

/// Each seeded statistic says of its command how often it is among the entries,
/// and the time of its latest run.
pub proof fn law_seeded_stats_tell(entries: Seq<HistoryLineView>, anchor_ms: u64, k: int)
    requires
        0 <= k < seeded_stats(entries, anchor_ms).len(),
    ensures
        tells(
            seeded_stats(entries, anchor_ms)[k],
            entries,
            entries.len() as int,
            anchor_ms,
        ),
{
    let n = entries.len() as int;
    let stat = seeded_stats(entries, anchor_ms)[k];
    let t = tallied(entries, n, anchor_ms);
    lemma_seeded_contains(entries, anchor_ms, stat);
    assert(seeded_stats(entries, anchor_ms).contains(stat));
    let j = choose|j: int| 0 <= j < t.len() && t[j] == stat;
    lemma_stats_tell(entries, n, j, anchor_ms);
}

/// No entry is lost: its command has a seeded statistic.
pub proof fn law_no_entry_is_lost(entries: Seq<HistoryLineView>, anchor_ms: u64, i: int)
    requires
        0 <= i < entries.len(),
    ensures
        exists|k: int|
            0 <= k < seeded_stats(entries, anchor_ms).len() && (#[trigger] seeded_stats(
                entries,
                anchor_ms,
            )[k]).command_line == entries[i].command_line,
{
    let n = entries.len() as int;
    let t = tallied(entries, n, anchor_ms);
    law_latest_is_latest(entries, n, i, anchor_ms);
    let j = choose|j: int|
        0 <= j < t.len() && (#[trigger] t[j]).command_line == entries[i].command_line
            && t[j].latest_timestamp >= time_of(entries[i], i, n, anchor_ms);
    assert(t.contains(t[j]));
    lemma_seeded_contains(entries, anchor_ms, t[j]);
    let s = seeded_stats(entries, anchor_ms);
    let k = choose|k: int| 0 <= k < s.len() && s[k] == t[j];
    assert(s[k].command_line == entries[i].command_line);
}

/// An entry with a time was run then; of the others the last was run when the
/// file was written, and each other a second before the next.
pub proof fn law_times(line: HistoryLineView, i: int, total: int, anchor_ms: u64)
    requires
        0 <= i < total,
    ensures
        line.timestamp_ms is Some ==> time_of(line, i, total, anchor_ms) == line.timestamp_ms->0,
        line.timestamp_ms is None ==> {
            &&& time_of(line, total - 1, total, anchor_ms) == anchor_ms
            &&& i + 1 < total ==> time_of(line, i, total, anchor_ms) == (if time_of(
                line,
                i + 1,
                total,
                anchor_ms,
            ) < 1000 {
                0
            } else {
                time_of(line, i + 1, total, anchor_ms) - 1000
            })
        },
{
}

/// A line that looks like an extended one and is not is its command as it stands:
/// where what stands before the semicolon does not begin with a time, and where
/// no command stands behind it.
pub proof fn law_broken_extended_line(
    time: Seq<char>,
    more: Seq<char>,
    tail: Seq<char>,
)
    requires
        !time.contains(';'),
        !time.contains(':'),
        more.len() == 0 || more[0] == ':' && !more.contains(';'),
        number::read_natural(text::trim(time), u64::MAX as nat) is None || (forall|i: int|
            0 <= i < tail.len() ==> text::is_space(#[trigger] tail[i])),
    ensures
        ({
            let line = seq![':', ' '] + (time + more) + seq![';'] + tail;
            history_line(line) == Some(HistoryLineView { command_line: line, timestamp_ms: None })
        }),
{
    let header = time + more;
    let line = seq![':', ' '] + header + seq![';'] + tail;
    let rest = line.skip(2);
    let n = header.len() as int;
    reveal_strlit(": ");
    assert(line[0] == ':');
    lemma_something_left(line, 0);
    assert(rest =~= header + seq![';'] + tail);
    assert forall|i: int| 0 <= i < n implies #[trigger] rest[i] != ';' by {
        if i < time.len() {
            assert(rest[i] == time[i]);
            assert(time.contains(time[i]));
        } else {
            assert(rest[i] == more[i - time.len()]);
            assert(more.contains(more[i - time.len()]));
        }
    }
    text::lemma_first_at_is(rest, ';', n);
    assert(rest.take(n) =~= header);
    assert(rest.skip(n + 1) =~= tail);
    if more.len() == 0 {
        assert(header =~= time);
        text::law_split_apart(time, ':', Seq::empty());
    } else {
        text::law_split_apart(time, ':', more.skip(1));
        assert(header =~= time + seq![':'] + more.skip(1));
    }
    if forall|i: int| 0 <= i < tail.len() ==> text::is_space(#[trigger] tail[i]) {
        let none = Seq::<char>::empty();
        text::law_trim(tail, none, none);
        assert(tail + none + none =~= tail);
    }
}

/// The seeded statistics are about different commands, and those of the commands
/// that were run last come first.
pub proof fn law_seeded_in_order(entries: Seq<HistoryLineView>, anchor_ms: u64, i: int, j: int)
    requires
        0 <= i < j < seeded_stats(entries, anchor_ms).len(),
    ensures
        seeded_stats(entries, anchor_ms)[i].latest_timestamp >= seeded_stats(
            entries,
            anchor_ms,
        )[j].latest_timestamp,
        seeded_stats(entries, anchor_ms)[i].command_line != seeded_stats(
            entries,
            anchor_ms,
        )[j].command_line,
{
    let n = entries.len() as int;
    let t = tallied(entries, n, anchor_ms);
    let s = seeded_stats(entries, anchor_ms);
    law_seeded_latest_first(entries, anchor_ms);
    law_commands_differ(entries, n, anchor_ms);
    assert(s[i].weight() >= s[j].weight());
    assert(t.no_duplicates());
    t.lemma_multiset_has_no_duplicates();
    assert forall|x: StatView| s.to_multiset().contains(x) implies s.to_multiset().count(x)
        == 1 by {
        assert(t.to_multiset().contains(x));
    }
    s.lemma_multiset_has_no_duplicates_conv();
    lemma_seeded_contains(entries, anchor_ms, s[i]);
    lemma_seeded_contains(entries, anchor_ms, s[j]);
    assert(s.contains(s[i]) && s.contains(s[j]));
    let a = choose|a: int| 0 <= a < t.len() && t[a] == s[i];
    let b = choose|b: int| 0 <= b < t.len() && t[b] == s[j];
    if s[i].command_line == s[j].command_line {
        if a < b {
            assert(t[a].command_line != t[b].command_line);
        } else if b < a {
            assert(t[b].command_line != t[a].command_line);
        }
        assert(s[i] == s[j]);
    }
}

} // verus!
