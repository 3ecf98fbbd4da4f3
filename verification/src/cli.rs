//! What the commands of the program accept and print.
use vstd::prelude::*;
use crate::config;
use crate::db::models::JournalEntry;
use crate::migrate::{AppliedInit, AppliedMigration, InitReport, MigrationReport};
use crate::number;
use crate::ranking;
use crate::text;

verus! {

/// How many commands of the journal are shown.
pub const JOURNAL_LIMIT: usize = 20;

// ----------------------------------------------------------------- requests

/// What `init` is asked to do.
#[derive(Debug, Clone, PartialEq, Eq)]
pub enum InitRequest {
    /// Print the plugin.
    PrintPlugin,
    /// Install into a `.zshrc`.
    Install,
    /// Nothing, for a reason.
    Refused { reason: String },
}

/// What `init` is asked to do, given its shell argument and whether a path or a
/// preview was asked for.
pub fn init_request(shell: Option<&str>, has_zshrc: bool, dry_run: bool) -> (r: InitRequest)
    ensures
        match r {
            InitRequest::PrintPlugin => ranking::slice_view(shell) == Some("zsh"@) && !has_zshrc
                && !dry_run,
            InitRequest::Install => shell is None,
            InitRequest::Refused { reason } => {
                ||| ranking::slice_view(shell) == Some("zsh"@) && (has_zshrc || dry_run)
                    && reason@
                    == "`--zshrc` and `--dry-run` are only supported by `shellsuggest init` without a shell argument."@
                ||| shell is Some && shell->0@ != "zsh"@ && reason@ == "unsupported shell: "@
                    + shell->0@ + ". only 'zsh' is supported."@
            },
        },
{
    match shell {
        Some(name) => {
            if text::eq_str(name, "zsh") {
                if has_zshrc || dry_run {
                    return InitRequest::Refused {
                        reason: text::copy_str(
                            "`--zshrc` and `--dry-run` are only supported by `shellsuggest init` without a shell argument.",
                        ),
                    };
                }
                return InitRequest::PrintPlugin;
            }
            let mut out = text::chars_of("unsupported shell: ");
            text::extend_str(&mut out, name);
            text::extend_str(&mut out, ". only 'zsh' is supported.");
            InitRequest::Refused { reason: text::string_of(&out) }
        },
        None => InitRequest::Install,
    }
}

/// Why a migration from `source` is refused, if it is.
pub fn migration_refusal(source: &str) -> (r: Option<String>)
    ensures
        text::option_view(r) == (if source@ == "zsh-autosuggestions"@ {
            None
        } else {
            Some(
                "unsupported migration source: "@ + source@
                    + ". only 'zsh-autosuggestions' is supported."@,
            )
        }),
{
    if text::eq_str(source, "zsh-autosuggestions") {
        return None;
    }
    let mut out = text::chars_of("unsupported migration source: ");
    text::extend_str(&mut out, source);
    text::extend_str(&mut out, ". only 'zsh-autosuggestions' is supported.");
    Some(text::string_of(&out))
}

// ------------------------------------------------------------------- output

/// The start of a line and what follows it.
fn labelled(label: &str, value: &str) -> (r: String)
    ensures
        r@ == label@ + value@,
{
    let mut out = text::chars_of(label);
    text::extend_str(&mut out, value);
    text::string_of(&out)
}

fn counted(label: &str, n: u64) -> (r: String)
    ensures
        r@ == label@ + number::decimal(n as nat),
{
    let mut out = text::chars_of(label);
    let digits = number::decimal_text(n);
    text::extend(&mut out, &digits);
    text::string_of(&out)
}

fn truth(b: bool) -> (r: &'static str)
    ensures
        r@ == config::bool_text(b),
{
    if b {
        "true"
    } else {
        "false"
    }
}

fn add_line(lines: &mut Vec<String>, line: String)
    ensures
        text::string_views(final(lines)@) == text::string_views(old(lines)@).push(line@),
{
    let ghost before = lines@;
    lines.push(line);
    assert(text::string_views(before.push(line)) =~= text::string_views(before).push(line@));
}

/// What the database holds. The rate is the share of accepted suggestions in
/// percent with one decimal place.
#[derive(Debug, Clone)]
pub struct StatusCounts {
    pub journal_rows: u64,
    pub accepted: u64,
    pub rejected: u64,
    pub acceptance_rate: String,
    pub by_source: Vec<SourceCount>,
    pub path_cache_rows: u64,
    pub history_seed_rows: u64,
}

/// How many suggestions of a source were accepted.
#[derive(Debug, Clone)]
pub struct SourceCount {
    pub source: String,
    pub count: u64,
}

/// A source and its count.
pub open spec fn source_text(s: SourceCount) -> Seq<char> {
    s.source@ + "="@ + number::decimal(s.count as nat)
}

/// The sources and their counts.
pub open spec fn sources_text(s: Seq<SourceCount>) -> Seq<char> {
    if s.len() == 0 {
        "none"@
    } else {
        text::join(s.map_values(|c: SourceCount| source_text(c)), ", "@)
    }
}

/// The first lines of `status`.
pub open spec fn status_opening_text(db_path: Option<Seq<char>>) -> Seq<Seq<char>> {
    seq![
        "runtime: per-shell query process (no shared daemon)"@,
        match db_path {
            Some(path) => "db: "@ + path,
            None => "db: not found"@,
        },
    ]
}

/// The lines of `status` behind the first.
pub open spec fn status_text(counts: Option<StatusCounts>, settings: Seq<char>) -> Seq<Seq<char>> {
    match counts {
        Some(c) => seq![
            "journal_rows: "@ + number::decimal(c.journal_rows as nat),
            "feedback.accepted: "@ + number::decimal(c.accepted as nat),
            "feedback.rejected: "@ + number::decimal(c.rejected as nat),
            "feedback.acceptance_rate: "@ + c.acceptance_rate@ + "%"@,
            "feedback.by_source: "@ + sources_text(c.by_source@),
            "path_cache_rows: "@ + number::decimal(c.path_cache_rows as nat),
            "history_seed_rows: "@ + number::decimal(c.history_seed_rows as nat),
            settings,
        ],
        None => seq![
            "journal_rows: 0"@,
            "feedback.accepted: 0"@,
            "feedback.rejected: 0"@,
            "feedback.acceptance_rate: 0.0%"@,
            "feedback.by_source: none"@,
            "path_cache_rows: 0"@,
            "history_seed_rows: 0"@,
            settings,
        ],
    }
}

fn sources(s: &Vec<SourceCount>) -> (r: String)
    ensures
        r@ == sources_text(s@),
{
    if s.len() == 0 {
        return text::copy_str("none");
    }
    let mut parts: Vec<Vec<char>> = Vec::new();
    let ghost f = |c: SourceCount| source_text(c);
    let mut i: usize = 0;
    assert(text::views(parts@) =~= s@.take(0).map_values(f));
    while i < s.len()
        invariant
            i <= s@.len(),
            f == (|c: SourceCount| source_text(c)),
            text::views(parts@) == s@.take(i as int).map_values(f),
        decreases s@.len() - i,
    {
        let mut part = text::chars_of(s[i].source.as_str());
        text::extend_str(&mut part, "=");
        let digits = number::decimal_text(s[i].count);
        text::extend(&mut part, &digits);
        proof {
            assert(text::views(parts@.push(part)) =~= text::views(parts@).push(part@));
            assert(s@.take(i + 1) =~= s@.take(i as int).push(s@[i as int]));
            assert(s@.take(i + 1).map_values(f) =~= s@.take(i as int).map_values(f).push(
                f(s@[i as int]),
            ));
        }
        parts.push(part);
        i += 1;
    }
    assert(s@.take(i as int) =~= s@);
    let out = text::joined(&parts, ", ");
    text::string_of(&out)
}

/// The first lines of `status`, given where the database is, if there is one.
pub fn status_opening(db_path: Option<&str>) -> (r: Vec<String>)
    ensures
        text::string_views(r@) == status_opening_text(ranking::slice_view(db_path)),
{
    let mut lines: Vec<String> = Vec::new();
    lines.push(text::copy_str("runtime: per-shell query process (no shared daemon)"));
    match db_path {
        Some(path) => lines.push(labelled("db: ", path)),
        None => lines.push(text::copy_str("db: not found")),
    }
    assert(text::string_views(lines@) =~= status_opening_text(ranking::slice_view(db_path)));
    lines
}

/// The lines of `status` behind the first, given what the database holds, if
/// there is one, and the configuration as text.
pub fn status_lines(counts: Option<&StatusCounts>, settings: String) -> (r: Vec<String>)
    ensures
        text::string_views(r@) == status_text(
            match counts {
                Some(c) => Some(*c),
                None => None,
            },
            settings@,
        ),
{
    let mut lines: Vec<String> = Vec::new();
    match counts {
        Some(c) => {
            lines.push(counted("journal_rows: ", c.journal_rows));
            lines.push(counted("feedback.accepted: ", c.accepted));
            lines.push(counted("feedback.rejected: ", c.rejected));
            let rate = labelled("feedback.acceptance_rate: ", c.acceptance_rate.as_str());
            lines.push(labelled(rate.as_str(), "%"));
            let by_source = sources(&c.by_source);
            lines.push(labelled("feedback.by_source: ", by_source.as_str()));
            lines.push(counted("path_cache_rows: ", c.path_cache_rows));
            lines.push(counted("history_seed_rows: ", c.history_seed_rows));
        },
        None => {
            lines.push(text::copy_str("journal_rows: 0"));
            lines.push(text::copy_str("feedback.accepted: 0"));
            lines.push(text::copy_str("feedback.rejected: 0"));
            lines.push(text::copy_str("feedback.acceptance_rate: 0.0%"));
            lines.push(text::copy_str("feedback.by_source: none"));
            lines.push(text::copy_str("path_cache_rows: 0"));
            lines.push(text::copy_str("history_seed_rows: 0"));
        },
    }
    lines.push(settings);
    assert(text::string_views(lines@) =~= status_text(
        match counts {
            Some(c) => Some(*c),
            None => None,
        },
        settings@,
    ));
    lines
}

/// The line of one command of the journal.
pub open spec fn journal_line_text(e: JournalEntry) -> Seq<char> {
    "["@ + number::decimal(e.timestamp as nat) + "] "@ + e.command_line@ + " (cwd: "@ + e.cwd@
        + ", exit: "@ + (match e.exit_code {
        Some(code) => number::signed_decimal(code as int),
        None => "?"@,
    }) + ")"@
}

/// The lines of `journal`: where there is no database, where it is empty, and
/// else one line for each command.
pub open spec fn journal_text(db_path: Seq<char>, entries: Option<Seq<JournalEntry>>) -> Seq<
    Seq<char>,
> {
    match entries {
        None => seq!["no journal found at "@ + db_path],
        Some(e) => if e.len() == 0 {
            seq!["journal is empty"@]
        } else {
            e.map_values(|entry: JournalEntry| journal_line_text(entry))
        },
    }
}

fn journal_line(entry: &JournalEntry) -> (r: String)
    ensures
        r@ == journal_line_text(*entry),
{
    let mut out = text::chars_of("[");
    let time = number::decimal_text(entry.timestamp);
    text::extend(&mut out, &time);
    text::extend_str(&mut out, "] ");
    text::extend_str(&mut out, entry.command_line.as_str());
    text::extend_str(&mut out, " (cwd: ");
    text::extend_str(&mut out, entry.cwd.as_str());
    text::extend_str(&mut out, ", exit: ");
    match entry.exit_code {
        Some(code) => {
            let digits = number::signed_decimal_text(code);
            text::extend(&mut out, &digits);
        },
        None => text::extend_str(&mut out, "?"),
    }
    text::extend_str(&mut out, ")");
    text::string_of(&out)
}

/// The lines of `journal`, given the latest commands, if there is a database.
pub fn journal_lines(db_path: &str, entries: Option<&Vec<JournalEntry>>) -> (r: Vec<String>)
    ensures
        text::string_views(r@) == journal_text(
            db_path@,
            match entries {
                Some(e) => Some(e@),
                None => None,
            },
        ),
{
    let mut lines: Vec<String> = Vec::new();
    let all: &Vec<JournalEntry> = match entries {
        Some(e) => e,
        None => {
            lines.push(labelled("no journal found at ", db_path));
            assert(text::string_views(lines@) =~= journal_text(db_path@, None));
            return lines;
        },
    };
    if all.len() == 0 {
        lines.push(text::copy_str("journal is empty"));
        assert(text::string_views(lines@) =~= journal_text(db_path@, Some(all@)));
        return lines;
    }
    let ghost f = |entry: JournalEntry| journal_line_text(entry);
    let mut i: usize = 0;
    assert(text::string_views(lines@) =~= all@.take(0).map_values(f));
    while i < all.len()
        invariant
            i <= all@.len(),
            f == (|entry: JournalEntry| journal_line_text(entry)),
            text::string_views(lines@) == all@.take(i as int).map_values(f),
        decreases all@.len() - i,
    {
        let line = journal_line(&all[i]);
        proof {
            assert(all@.take(i + 1) =~= all@.take(i as int).push(all@[i as int]));
            assert(all@.take(i + 1).map_values(f) =~= all@.take(i as int).map_values(f).push(
                f(all@[i as int]),
            ));
        }
        add_line(&mut lines, line);
        i += 1;
    }
    assert(all@.take(i as int) =~= all@);
    lines
}

/// The lines that say what was asked for.
pub open spec fn mode_text(zshrc_path: Seq<char>, dry_run: bool) -> Seq<Seq<char>> {
    seq![
        "zshrc: "@ + zshrc_path,
        "mode: "@ + if dry_run {
            "dry-run"@
        } else {
            "applied"@
        },
    ]
}

/// The lines that say what a migration changes.
pub open spec fn migration_text(report: MigrationReport) -> Seq<Seq<char>> {
    seq![
        "disabled_lines: "@ + number::decimal(report.disabled_lines as nat),
        "removed_plugin_tokens: "@ + number::decimal(report.removed_plugin_tokens as nat),
        "added_shellsuggest_init: "@ + config::bool_text(report.added_init),
    ]
}

/// The line that says where the backup is.
pub open spec fn backup_text(backup_path: Option<String>) -> Seq<Seq<char>> {
    match backup_path {
        Some(path) => seq!["backup: "@ + path@],
        None => Seq::empty(),
    }
}

/// The lines of the warnings.
pub open spec fn warnings_text(warnings: Seq<String>) -> Seq<Seq<char>> {
    if warnings.len() == 0 {
        seq!["warnings: none"@]
    } else {
        seq!["warnings:"@] + warnings.map_values(|w: String| "  - "@ + w@)
    }
}

/// The lines that say what an installation changes.
pub open spec fn changes_text(report: InitReport, backup_path: Option<String>) -> Seq<Seq<char>> {
    if !report.changed {
        seq!["changes: none"@]
    } else {
        (match report.migration {
            Some(m) => migration_text(m),
            None => seq!["added_shellsuggest_init: true"@],
        }) + backup_text(backup_path)
    }
}

/// The lines of `init`.
pub open spec fn init_text(applied: AppliedInit, dry_run: bool) -> Seq<Seq<char>> {
    mode_text(applied.zshrc_path@, dry_run).push("action: "@ + applied.report.action.text())
        + changes_text(applied.report, applied.backup_path) + warnings_text(
        applied.report.warnings@,
    )
}

/// The lines of `migrate`.
pub open spec fn migrate_text(applied: AppliedMigration, dry_run: bool) -> Seq<Seq<char>> {
    mode_text(applied.zshrc_path@, dry_run) + (if !applied.report.changed {
        seq!["changes: none"@]
    } else {
        migration_text(applied.report) + backup_text(applied.backup_path)
    }) + warnings_text(applied.report.warnings@)
}

fn add_mode(lines: &mut Vec<String>, zshrc_path: &str, dry_run: bool)
    ensures
        text::string_views(final(lines)@) == text::string_views(old(lines)@) + mode_text(
            zshrc_path@,
            dry_run,
        ),
{
    let ghost before = text::string_views(lines@);
    add_line(lines, labelled("zshrc: ", zshrc_path));
    let mode: &str = if dry_run {
        "dry-run"
    } else {
        "applied"
    };
    add_line(lines, labelled("mode: ", mode));
    assert(text::string_views(lines@) =~= before + mode_text(zshrc_path@, dry_run));
}

fn add_migration(lines: &mut Vec<String>, report: &MigrationReport)
    ensures
        text::string_views(final(lines)@) == text::string_views(old(lines)@) + migration_text(
            *report,
        ),
{
    let ghost before = text::string_views(lines@);
    add_line(lines, counted("disabled_lines: ", report.disabled_lines as u64));
    add_line(lines, counted("removed_plugin_tokens: ", report.removed_plugin_tokens as u64));
    add_line(lines, labelled("added_shellsuggest_init: ", truth(report.added_init)));
    assert(text::string_views(lines@) =~= before + migration_text(*report));
}

fn add_backup(lines: &mut Vec<String>, backup_path: &Option<String>)
    ensures
        text::string_views(final(lines)@) == text::string_views(old(lines)@) + backup_text(
            *backup_path,
        ),
{
    let ghost before = text::string_views(lines@);
    if let Some(path) = backup_path {
        add_line(lines, labelled("backup: ", path.as_str()));
    }
    assert(text::string_views(lines@) =~= before + backup_text(*backup_path));
}

fn add_warnings(lines: &mut Vec<String>, warnings: &Vec<String>)
    ensures
        text::string_views(final(lines)@) == text::string_views(old(lines)@) + warnings_text(
            warnings@,
        ),
{
    let ghost before = text::string_views(lines@);
    if warnings.len() == 0 {
        add_line(lines, text::copy_str("warnings: none"));
        assert(text::string_views(lines@) =~= before + warnings_text(warnings@));
        return;
    }
    add_line(lines, text::copy_str("warnings:"));
    let ghost f = |w: String| "  - "@ + w@;
    let mut i: usize = 0;
    assert(text::string_views(lines@) =~= before + (seq!["warnings:"@] + warnings@.take(
        0,
    ).map_values(f)));
    while i < warnings.len()
        invariant
            i <= warnings@.len(),
            f == (|w: String| "  - "@ + w@),
            text::string_views(lines@) == before + (seq!["warnings:"@] + warnings@.take(
                i as int,
            ).map_values(f)),
        decreases warnings@.len() - i,
    {
        let ghost so_far = text::string_views(lines@);
        let ghost w = warnings@[i as int];
        add_line(lines, labelled("  - ", warnings[i].as_str()));
        proof {
            assert(warnings@.take(i + 1) =~= warnings@.take(i as int).push(w));
            assert(warnings@.take(i + 1).map_values(f) =~= warnings@.take(i as int).map_values(
                f,
            ).push(f(w)));
            assert(so_far.push(f(w)) =~= before + (seq!["warnings:"@] + warnings@.take(
                i + 1,
            ).map_values(f)));
        }
        i += 1;
    }
    assert(warnings@.take(i as int) =~= warnings@);
}

/// The lines of `init`.
pub fn init_lines(applied: &AppliedInit, dry_run: bool) -> (r: Vec<String>)
    ensures
        text::string_views(r@) == init_text(*applied, dry_run),
{
    let mut lines: Vec<String> = Vec::new();
    let ghost none = text::string_views(lines@);
    assert(none =~= Seq::<Seq<char>>::empty());
    add_mode(&mut lines, applied.zshrc_path.as_str(), dry_run);
    add_line(&mut lines, labelled("action: ", applied.report.action.as_str()));
    let ghost head = text::string_views(lines@);
    assert(head =~= mode_text(applied.zshrc_path@, dry_run).push(
        "action: "@ + applied.report.action.text(),
    ));
    if !applied.report.changed {
        add_line(&mut lines, text::copy_str("changes: none"));
    } else {
        match &applied.report.migration {
            Some(m) => add_migration(&mut lines, m),
            None => add_line(&mut lines, text::copy_str("added_shellsuggest_init: true")),
        }
        add_backup(&mut lines, &applied.backup_path);
    }
    assert(text::string_views(lines@) =~= head + changes_text(
        applied.report,
        applied.backup_path,
    ));
    add_warnings(&mut lines, &applied.report.warnings);
    lines
}

/// The lines of `migrate`.
pub fn migrate_lines(applied: &AppliedMigration, dry_run: bool) -> (r: Vec<String>)
    ensures
        text::string_views(r@) == migrate_text(*applied, dry_run),
{
    let mut lines: Vec<String> = Vec::new();
    let ghost none = text::string_views(lines@);
    assert(none =~= Seq::<Seq<char>>::empty());
    add_mode(&mut lines, applied.zshrc_path.as_str(), dry_run);
    let ghost head = text::string_views(lines@);
    assert(head =~= mode_text(applied.zshrc_path@, dry_run));
    let ghost changes = if !applied.report.changed {
        seq!["changes: none"@]
    } else {
        migration_text(applied.report) + backup_text(applied.backup_path)
    };
    if !applied.report.changed {
        add_line(&mut lines, text::copy_str("changes: none"));
    } else {
        add_migration(&mut lines, &applied.report);
        add_backup(&mut lines, &applied.backup_path);
    }
    assert(text::string_views(lines@) =~= head + changes);
    add_warnings(&mut lines, &applied.report.warnings);
    lines
}

// --------------------------------------------------------------------- laws

/// Each command of the journal has a line of its own, in order, that says when and
/// where it was run, what it was and how it ended.
pub proof fn law_line_for_each_command(
    db_path: Seq<char>,
    entries: Seq<JournalEntry>,
    e: JournalEntry,
)
    ensures
        ({
            let more = journal_text(db_path, Some(entries.push(e)));
            &&& more.len() == entries.len() + 1
            &&& entries.len() > 0 ==> more.drop_last() == journal_text(db_path, Some(entries))
            &&& e.exit_code is Some ==> more.last() == "["@ + number::decimal(e.timestamp as nat)
                + "] "@ + e.command_line@ + " (cwd: "@ + e.cwd@ + ", exit: "@
                + number::signed_decimal(e.exit_code->0 as int) + ")"@
            &&& e.exit_code is None ==> more.last() == "["@ + number::decimal(e.timestamp as nat)
                + "] "@ + e.command_line@ + " (cwd: "@ + e.cwd@ + ", exit: "@ + "?"@ + ")"@
        }),
        journal_text(db_path, None) == seq!["no journal found at "@ + db_path],
        journal_text(db_path, Some(Seq::empty())) == seq!["journal is empty"@],
{
    let f = |entry: JournalEntry| journal_line_text(entry);
    assert(entries.push(e).map_values(f) =~= entries.map_values(f).push(f(e)));
    assert(entries.map_values(f).push(f(e)).drop_last() =~= entries.map_values(f));
}

/// Each source has its count behind it, and a comma stands before it where it is
/// not the first.
pub proof fn law_count_for_each_source(s: Seq<SourceCount>, c: SourceCount)
    ensures
        s.len() == 0 ==> sources_text(s.push(c)) == c.source@ + "="@ + number::decimal(
            c.count as nat,
        ),
        s.len() > 0 ==> sources_text(s.push(c)) == sources_text(s) + ", "@ + (c.source@ + "="@
            + number::decimal(c.count as nat)),
        sources_text(Seq::empty()) == "none"@,
{
    let f = |c: SourceCount| source_text(c);
    assert(s.push(c).map_values(f) =~= s.map_values(f).push(f(c)));
    text::law_join(s.map_values(f), ", "@, f(c));
}

/// Each warning has a line of its own below a heading; without any, one line says
/// so.
pub proof fn law_line_for_each_warning(warnings: Seq<String>, w: String)
    ensures
        ({
            let more = warnings_text(warnings.push(w));
            &&& more.len() == warnings.len() + 2
            &&& more[0] == "warnings:"@
            &&& more.last() == "  - "@ + w@
            &&& warnings.len() > 0 ==> more.drop_last() == warnings_text(warnings)
        }),
        warnings_text(Seq::empty()) == seq!["warnings: none"@],
{
    let f = |w: String| "  - "@ + w@;
    assert(warnings.push(w).map_values(f) =~= warnings.map_values(f).push(f(w)));
    let more = warnings_text(warnings.push(w));
    assert(more =~= (seq!["warnings:"@] + warnings.map_values(f)).push(f(w)));
    assert(more.drop_last() =~= seq!["warnings:"@] + warnings.map_values(f));
}

/// `status` opens with how the program runs and where its database is.
pub proof fn law_status_opens(path: Seq<char>)
    ensures
        status_opening_text(Some(path)).len() == 2,
        status_opening_text(None).len() == 2,
        status_opening_text(Some(path))[0]
            == "runtime: per-shell query process (no shared daemon)"@,
        status_opening_text(None)[0] == status_opening_text(Some(path))[0],
        status_opening_text(Some(path))[1] == "db: "@ + path,
        status_opening_text(None)[1] == "db: not found"@,
{
}

/// `status` says of each count what it is, and ends with the configuration; a
/// database that is not there has the lines of one that holds nothing.
pub proof fn law_status_of_nothing(c: StatusCounts, settings: Seq<char>)
    ensures
        ({
            let full = status_text(Some(c), settings);
            &&& full.len() == 8
            &&& full[0] == "journal_rows: "@ + number::decimal(c.journal_rows as nat)
            &&& full[1] == "feedback.accepted: "@ + number::decimal(c.accepted as nat)
            &&& full[2] == "feedback.rejected: "@ + number::decimal(c.rejected as nat)
            &&& full[3] == "feedback.acceptance_rate: "@ + c.acceptance_rate@ + "%"@
            &&& full[4] == "feedback.by_source: "@ + sources_text(c.by_source@)
            &&& full[5] == "path_cache_rows: "@ + number::decimal(c.path_cache_rows as nat)
            &&& full[6] == "history_seed_rows: "@ + number::decimal(c.history_seed_rows as nat)
            &&& full[7] == settings
        }),
        c.journal_rows == 0 && c.accepted == 0 && c.rejected == 0 && c.acceptance_rate@ == "0.0"@
            && c.by_source@.len() == 0 && c.path_cache_rows == 0 && c.history_seed_rows == 0
            ==> status_text(None, settings) == status_text(Some(c), settings),
{
    reveal_strlit("journal_rows: ");
    reveal_strlit("journal_rows: 0");
    reveal_strlit("feedback.accepted: ");
    reveal_strlit("feedback.accepted: 0");
    reveal_strlit("feedback.rejected: ");
    reveal_strlit("feedback.rejected: 0");
    reveal_strlit("feedback.acceptance_rate: ");
    reveal_strlit("feedback.acceptance_rate: 0.0%");
    reveal_strlit("0.0");
    reveal_strlit("%");
    reveal_strlit("feedback.by_source: ");
    reveal_strlit("feedback.by_source: none");
    reveal_strlit("none");
    reveal_strlit("path_cache_rows: ");
    reveal_strlit("path_cache_rows: 0");
    reveal_strlit("history_seed_rows: ");
    reveal_strlit("history_seed_rows: 0");
    number::law_digits(Seq::empty(), 0, 0);
    let zero = number::decimal(0);
    assert("journal_rows: "@ + zero =~= "journal_rows: 0"@);
    assert("feedback.accepted: "@ + zero =~= "feedback.accepted: 0"@);
    assert("feedback.rejected: "@ + zero =~= "feedback.rejected: 0"@);
    assert("feedback.acceptance_rate: "@ + "0.0"@ + "%"@ =~= "feedback.acceptance_rate: 0.0%"@);
    assert("feedback.by_source: "@ + "none"@ =~= "feedback.by_source: none"@);
    assert("path_cache_rows: "@ + zero =~= "path_cache_rows: 0"@);
    assert("history_seed_rows: "@ + zero =~= "history_seed_rows: 0"@);
}

/// `init` says where and what it does, then what changes, then the warnings; what
/// does not change is not counted, and no backup is named that is not made.
pub proof fn law_init_says(applied: AppliedInit, dry_run: bool)
    ensures
        ({
            let l = init_text(applied, dry_run);
            let w = warnings_text(applied.report.warnings@);
            let n = l.len() - w.len();
            &&& l[0] == "zshrc: "@ + applied.zshrc_path@
            &&& dry_run ==> l[1] == "mode: "@ + "dry-run"@
            &&& !dry_run ==> l[1] == "mode: "@ + "applied"@
            &&& l[2] == "action: "@ + applied.report.action.text()
            &&& n >= 4
            &&& l.skip(n) == w
            &&& !applied.report.changed ==> n == 4 && l[3] == "changes: none"@
            &&& applied.report.changed && applied.report.migration is None ==> {
                &&& l[3] == "added_shellsuggest_init: true"@
                &&& applied.backup_path is None ==> n == 4
                &&& applied.backup_path is Some ==> n == 5 && l[4] == "backup: "@
                    + applied.backup_path->0@
            }
            &&& applied.report.changed && applied.report.migration is Some ==> {
                let m = applied.report.migration->0;
                &&& l[3] == "disabled_lines: "@ + number::decimal(m.disabled_lines as nat)
                &&& l[4] == "removed_plugin_tokens: "@ + number::decimal(
                    m.removed_plugin_tokens as nat,
                )
                &&& m.added_init ==> l[5] == "added_shellsuggest_init: "@ + "true"@
                &&& !m.added_init ==> l[5] == "added_shellsuggest_init: "@ + "false"@
                &&& applied.backup_path is None ==> n == 6
                &&& applied.backup_path is Some ==> n == 7 && l[6] == "backup: "@
                    + applied.backup_path->0@
            }
        }),
{
    let l = init_text(applied, dry_run);
    let w = warnings_text(applied.report.warnings@);
    assert(l.skip(l.len() - w.len()) =~= w);
}

/// `migrate` says where and how it works, then what changes, then the warnings;
/// what does not change is not counted, and no backup is named that is not made.
pub proof fn law_migrate_says(applied: AppliedMigration, dry_run: bool)
    ensures
        ({
            let l = migrate_text(applied, dry_run);
            let w = warnings_text(applied.report.warnings@);
            let n = l.len() - w.len();
            let m = applied.report;
            &&& l[0] == "zshrc: "@ + applied.zshrc_path@
            &&& dry_run ==> l[1] == "mode: "@ + "dry-run"@
            &&& !dry_run ==> l[1] == "mode: "@ + "applied"@
            &&& n >= 3
            &&& l.skip(n) == w
            &&& !m.changed ==> n == 3 && l[2] == "changes: none"@
            &&& m.changed ==> {
                &&& l[2] == "disabled_lines: "@ + number::decimal(m.disabled_lines as nat)
                &&& l[3] == "removed_plugin_tokens: "@ + number::decimal(
                    m.removed_plugin_tokens as nat,
                )
                &&& m.added_init ==> l[4] == "added_shellsuggest_init: "@ + "true"@
                &&& !m.added_init ==> l[4] == "added_shellsuggest_init: "@ + "false"@
                &&& applied.backup_path is None ==> n == 5
                &&& applied.backup_path is Some ==> n == 6 && l[5] == "backup: "@
                    + applied.backup_path->0@
            }
        }),
{
    let l = migrate_text(applied, dry_run);
    let w = warnings_text(applied.report.warnings@);
    assert(l.skip(l.len() - w.len()) =~= w);
}

} // verus!
