//! The providers, the broker and the runtime, driven as the program drives
//! them, over a journal that is held in memory.
use std::collections::BTreeMap;

use shellsuggest::config::CdFallbackMode;
use shellsuggest::daemon::broker::{Broker, BrokerOptions, ProvidedCandidates};
use shellsuggest::db::models::{
    JournalEntry, RankedCommand, SeededCommandStat, TransitionCount,
};
use shellsuggest::db::store::{
    from_sql_integer, journal_row, stat_changes, CwdQuery, PrefixQuery, StatChange,
    TransitionQuery,
};
use shellsuggest::plugin::cd_assist::{CdAssistPlugin, CdAssistReply};
use shellsuggest::plugin::cwd_history::{
    total_count, CwdHistoryPlugin, CwdHistoryReply, TransitionReply,
};
use shellsuggest::plugin::history::{HistoryPlugin, HistoryReply};
use shellsuggest::plugin::path::{
    name_matches, DirEntry, ListingAction, ListingEvent, PathPlugin, PathReply, CACHE_TTL_MS,
};
use shellsuggest::plugin::{
    InlineProvider, Proposals, Score, SuggestionCandidate, SuggestionKind, SuggestionRequest,
};
use shellsuggest::protocol::{
    encode_client_message, parse_daemon_message, ClientMessage, CycleDirection, DaemonMessage,
};
use shellsuggest::ranking::{PathKind, RankingFeatures, Recency, Share};
use shellsuggest::runtime::{answer_line, default_db_path, QueryRuntime, RuntimeAction};

// ------------------------------------------------------------------ support

fn value(share: Share) -> f32 {
    share.part as f32 / share.whole as f32
}

fn recency_value(recency: Recency) -> f32 {
    match recency {
        Recency::Unknown => 0.0,
        Recency::Fresh => 1.0,
        Recency::Aged { age_ms } => {
            let half_life_ms: f64 = 24.0 * 60.0 * 60.0 * 1000.0;
            (-0.693 * age_ms as f64 / half_life_ms).exp() as f32
        }
    }
}

fn score(f: &RankingFeatures) -> f32 {
    0.30 * value(f.prefix_exactness)
        + 0.25 * value(f.cwd_similarity)
        + 0.20 * value(f.path_exists)
        + 0.10 * recency_value(f.recency)
        + 0.05 * value(f.frequency)
        + 0.05 * value(f.last_command_transition)
        + 0.05 * value(f.success_bonus)
}

fn scored(proposals: Proposals) -> Vec<SuggestionCandidate> {
    proposals
        .into_list()
        .into_iter()
        .map(|p| {
            let score = score(&p.features);
            SuggestionCandidate {
                text: p.text,
                source: p.source,
                score: Score {
                    bits: score.to_bits(),
                    text: score.to_string(),
                },
                kind: p.kind,
            }
        })
        .collect()
}

fn score_of(candidate: &SuggestionCandidate) -> f32 {
    f32::from_bits(candidate.score.bits)
}

#[derive(Default)]
struct Journal {
    runs: Vec<(String, String)>,
    commands: BTreeMap<String, (i64, i64)>,
    cwd_commands: BTreeMap<(String, String), (i64, i64)>,
    transitions: BTreeMap<(String, String), i64>,
    seeded: Vec<SeededCommandStat>,
}

impl Journal {
    fn insert(&mut self, entry: &JournalEntry) {
        let row = journal_row(entry);
        let previous = self
            .runs
            .iter()
            .rev()
            .find(|(session, _)| *session == row.session_id)
            .map(|(_, command)| command.clone());
        for change in stat_changes(&row, previous.as_deref()) {
            match change {
                StatChange::Transition { prev, next } => {
                    *self.transitions.entry((prev, next)).or_insert(0) += 1;
                }
                StatChange::Command {
                    command_line,
                    timestamp,
                } => {
                    let stat = self.commands.entry(command_line).or_insert((timestamp, 0));
                    stat.0 = stat.0.max(timestamp);
                    stat.1 += 1;
                }
                StatChange::CwdCommand {
                    cwd,
                    command_line,
                    timestamp,
                } => {
                    let stat = self
                        .cwd_commands
                        .entry((cwd, command_line))
                        .or_insert((timestamp, 0));
                    stat.0 = stat.0.max(timestamp);
                    stat.1 += 1;
                }
            }
        }
        self.runs.push((row.session_id, row.command_line));
    }

    fn add(&mut self, cmd: &str, cwd: &str, ts: u64) {
        self.insert(&JournalEntry {
            id: None,
            command_line: cmd.into(),
            cwd: cwd.into(),
            exit_code: Some(0),
            duration_ms: Some(10),
            session_id: "test".into(),
            timestamp: ts,
        });
    }

    fn ranked(&self, q: &PrefixQuery) -> Vec<RankedCommand> {
        let rows = self.commands.iter().map(|(c, s)| (c.clone(), *s));
        latest(rows.collect(), q)
    }

    fn ranked_in(&self, q: &CwdQuery) -> Vec<RankedCommand> {
        let rows = self
            .cwd_commands
            .iter()
            .filter(|((cwd, _), _)| *cwd == q.cwd)
            .map(|((_, c), s)| (c.clone(), *s));
        latest(rows.collect(), &q.commands)
    }

    fn ranked_seeded(&self, q: &PrefixQuery) -> Vec<RankedCommand> {
        let rows = self.seeded.iter().map(|s| {
            let stat = (s.latest_timestamp as i64, s.sample_count as i64);
            (s.command_line.clone(), stat)
        });
        latest(rows.collect(), q)
    }

    fn followers(&self, q: &TransitionQuery) -> Vec<TransitionCount> {
        let mut rows: Vec<(&String, i64)> = self
            .transitions
            .iter()
            .filter(|((prev, next), _)| {
                *prev == q.prev_command && *next >= q.commands.prefix && *next < q.commands.upper
            })
            .map(|((_, next), count)| (next, *count))
            .collect();
        rows.sort_by(|a, b| b.1.cmp(&a.1));
        rows.truncate(q.commands.limit as usize);
        rows.into_iter()
            .map(|(next, count)| TransitionCount {
                command_line: next.clone(),
                count: from_sql_integer(count),
            })
            .collect()
    }
}

fn latest(mut rows: Vec<(String, (i64, i64))>, q: &PrefixQuery) -> Vec<RankedCommand> {
    rows.retain(|(command, _)| *command >= q.prefix && *command < q.upper);
    rows.sort_by(|a, b| b.1 .0.cmp(&a.1 .0));
    rows.truncate(q.limit as usize);
    rows.into_iter()
        .map(|(command_line, (timestamp, count))| RankedCommand {
            command_line,
            timestamp: from_sql_integer(timestamp),
            frequency: from_sql_integer(count),
        })
        .collect()
}

/// A file system: the entries of each directory, in order.
type Files = BTreeMap<String, Vec<DirEntry>>;

fn dir(name: &str) -> DirEntry {
    DirEntry {
        name: name.into(),
        is_dir: true,
    }
}

fn file(name: &str) -> DirEntry {
    DirEntry {
        name: name.into(),
        is_dir: false,
    }
}

fn listing(files: &Files, path: &str) -> Option<Vec<Option<DirEntry>>> {
    let path = path.trim_end_matches('/');
    let path = path.strip_suffix("/.").unwrap_or(path);
    files
        .get(path)
        .map(|entries| entries.iter().cloned().map(Some).collect())
}

fn kind_at(files: &Files, path: &str) -> Option<PathKind> {
    let (parent, name) = path.rsplit_once('/')?;
    let entry = files.get(parent)?.iter().find(|e| e.name == name)?;
    Some(if entry.is_dir {
        PathKind::Directory
    } else {
        PathKind::File
    })
}

fn ask_history(plugin: &HistoryPlugin, journal: &Journal, req: &SuggestionRequest) -> Proposals {
    let query = plugin.query(req);
    let live = Some(journal.ranked(&query));
    let seeded = if plugin.asks_seeded(&live) {
        Some(journal.ranked_seeded(&query))
    } else {
        None
    };
    plugin.suggest(req, HistoryReply { live, seeded })
}

fn ask_cwd_history(
    plugin: &CwdHistoryPlugin,
    journal: &Journal,
    files: &Files,
    req: &SuggestionRequest,
) -> Proposals {
    let cwd_rows = journal.ranked_in(&plugin.cwd_query(req));
    let parent_rows = plugin
        .parent_query(req)
        .map(|q| journal.ranked_in(&q))
        .unwrap_or_default();
    let entries = plugin.nearby(cwd_rows, parent_rows);
    let found = plugin
        .paths_to_check(req, &entries, None)
        .into_iter()
        .map(|path| path.and_then(|path| kind_at(files, &path)))
        .collect();
    let transitions = plugin
        .transition_queries(req, &entries)
        .into_iter()
        .map(|q| TransitionReply {
            rows: journal.followers(&q),
            prefix: q.commands.prefix,
        })
        .collect();
    plugin.suggest(
        req,
        CwdHistoryReply {
            entries,
            home: None,
            found,
            transitions,
        },
    )
}

fn list_dir(plugin: &mut PathPlugin, files: &Files, dir: &str, now_ms: u64) -> Vec<DirEntry> {
    let mut event = ListingEvent::Asked;
    loop {
        event = match plugin.next_listing(dir, event, now_ms) {
            ListingAction::AskDatabase => ListingEvent::Kept { names: None },
            ListingAction::ReadDirectory { .. } => ListingEvent::Read {
                listing: listing(files, dir),
            },
            ListingAction::Store { entries } => return entries,
            ListingAction::Done { entries } => return entries,
        };
    }
}

fn ask_path(plugin: &mut PathPlugin, files: &Files, req: &SuggestionRequest) -> Proposals {
    let entries = match plugin.directory(req, None) {
        Some(dir) => list_dir(plugin, files, &dir, req.timestamp_ms),
        None => Vec::new(),
    };
    plugin.suggest(req, PathReply { home: None, entries })
}

fn ask_cd_assist(
    plugin: &CdAssistPlugin,
    journal: &Journal,
    files: &Files,
    req: &SuggestionRequest,
) -> Proposals {
    let has_history = !journal.ranked_in(&plugin.history_query(req)).is_empty();
    let items = plugin
        .directory(req, has_history)
        .and_then(|dir| listing(files, &dir));
    plugin.suggest(
        req,
        CdAssistReply {
            has_history,
            listing: items,
        },
    )
}

fn provide(
    broker: &mut Broker,
    journal: &Journal,
    files: &Files,
    req: &SuggestionRequest,
) -> ProvidedCandidates {
    let mut provided = ProvidedCandidates {
        history: Vec::new(),
        cwd_history: Vec::new(),
        path: Vec::new(),
        cd_assist: Vec::new(),
    };
    if broker.history.supports(req) {
        provided.history = scored(ask_history(&broker.history, journal, req));
    }
    if broker.cwd_history.supports(req) {
        provided.cwd_history = scored(ask_cwd_history(&broker.cwd_history, journal, files, req));
    }
    if broker.path.supports(req) {
        provided.path = scored(ask_path(&mut broker.path, files, req));
    }
    if broker.cd_assist.supports(req) {
        provided.cd_assist = scored(ask_cd_assist(&broker.cd_assist, journal, files, req));
    }
    provided
}

fn suggest(
    broker: &mut Broker,
    journal: &Journal,
    files: &Files,
    req: &SuggestionRequest,
) -> Vec<SuggestionCandidate> {
    let provided = provide(broker, journal, files, req);
    broker.suggest(req, provided)
}

fn options() -> BrokerOptions {
    BrokerOptions {
        path_show_hidden: false,
        path_max_entries: 256,
        max_candidates: 5,
        cd_fallback_mode: CdFallbackMode::CurrentDirOnly,
    }
}

fn request(buffer: &str, cwd: &str) -> SuggestionRequest {
    SuggestionRequest {
        request_id: 1,
        buffer: buffer.into(),
        cursor: buffer.len(),
        cwd: cwd.into(),
        session_id: "test".into(),
        last_command: None,
        timestamp_ms: 10_000,
    }
}

fn no_files() -> Files {
    Files::new()
}

fn workspace() -> Files {
    let mut files = Files::new();
    files.insert(
        "/w".into(),
        vec![
            dir("src"),
            dir("scripts"),
            file("readme.md"),
            file("Cargo.toml"),
            dir(".hidden"),
        ],
    );
    files
}

// ------------------------------------------------------------------ history

#[test]
fn test_empty_buffer_not_supported() {
    let plugin = HistoryPlugin::new();
    assert!(!plugin.supports(&request("", "/test")));
}

#[test]
fn test_cd_uses_cwd_history_instead_of_global_history() {
    let plugin = HistoryPlugin::new();
    assert!(!plugin.supports(&request("cd ", "/test")));
}

#[test]
fn test_basic_prefix_match() {
    let mut journal = Journal::default();
    journal.add("cd src", "/a", 1000);
    journal.add("cd scripts", "/b", 2000);
    journal.add("vim main.rs", "/a", 3000);

    let results = scored(ask_history(&HistoryPlugin::new(), &journal, &request("cd ", "/test")));

    assert_eq!(results.len(), 2);
    assert!(results.iter().all(|c| c.text.starts_with("cd ")));
    assert!(results.iter().all(|c| c.source == "history"));
}

#[test]
fn test_deduplicates() {
    let mut journal = Journal::default();
    journal.add("ls", "/a", 1000);
    journal.add("ls", "/b", 2000);
    journal.add("ls", "/a", 3000);

    let results = scored(ask_history(&HistoryPlugin::new(), &journal, &request("ls", "/test")));

    assert_eq!(results.len(), 1);
}

#[test]
fn test_no_results_for_unknown_prefix() {
    let mut journal = Journal::default();
    journal.add("cd src", "/a", 1000);

    let results = scored(ask_history(&HistoryPlugin::new(), &journal, &request("zzz", "/test")));

    assert_eq!(results.len(), 0);
}

#[test]
fn test_falls_back_to_seeded_history_when_live_history_missing() {
    let mut journal = Journal::default();
    journal.seeded = vec![SeededCommandStat {
        command_line: "git status".into(),
        latest_timestamp: 5_000,
        sample_count: 3,
    }];

    let results = scored(ask_history(&HistoryPlugin::new(), &journal, &request("git ", "/test")));

    assert_eq!(results.len(), 1);
    assert_eq!(results[0].text, "git status");
    assert_eq!(results[0].source, "history_seed");
}

#[test]
fn test_live_history_beats_seeded_history_for_same_prefix() {
    let mut journal = Journal::default();
    journal.add("git commit", "/a", 4_000);
    journal.seeded = vec![SeededCommandStat {
        command_line: "git status".into(),
        latest_timestamp: 5_000,
        sample_count: 9,
    }];

    let results = scored(ask_history(&HistoryPlugin::new(), &journal, &request("git ", "/test")));

    assert_eq!(results.len(), 1);
    assert_eq!(results[0].text, "git commit");
    assert_eq!(results[0].source, "history");
}

#[test]
fn history_features_are_exact() {
    let mut journal = Journal::default();
    journal.add("git commit", "/a", 4_000);
    journal.add("git commit", "/b", 6_000);
    let plugin = HistoryPlugin::new();
    let proposals = ask_history(&plugin, &journal, &request("git ", "/test")).into_list();
    let features = proposals[0].features;
    assert_eq!(features.prefix_exactness, Share { part: 4, whole: 10 });
    assert_eq!(features.recency, Recency::Aged { age_ms: 4_000 });
    assert_eq!(value(features.frequency), 0.02);
    assert_eq!(value(features.success_bonus), 1.0);
    assert_eq!(value(features.cwd_similarity), 0.0);
    assert_eq!(proposals[0].kind, SuggestionKind::Command);
    assert_eq!(plugin.name(), "history");
}

#[test]
fn a_failed_query_proposes_nothing() {
    let plugin = HistoryPlugin::new();
    assert!(!plugin.asks_seeded(&None));
    let row = RankedCommand {
        command_line: "git x".into(),
        timestamp: 1,
        frequency: 1,
    };
    let reply = HistoryReply {
        live: None,
        seeded: Some(vec![row]),
    };
    assert!(plugin.suggest(&request("git ", "/"), reply).into_list().is_empty());
}

// -------------------------------------------------------------- cwd history

#[test]
fn test_cwd_exact_match_scores_higher() {
    let mut journal = Journal::default();
    journal.add("make test", "/project", 1000);
    journal.add("make build", "/other", 2000);

    let plugin = CwdHistoryPlugin::new();
    let req = request("make ", "/project");
    let results = scored(ask_cwd_history(&plugin, &journal, &no_files(), &req));

    assert!(results.iter().any(|c| c.text == "make test"));
    assert!(!results.iter().any(|c| c.text == "make build"));
}

#[test]
fn test_parent_cwd_included() {
    let mut journal = Journal::default();
    journal.add("make test", "/project", 1000);

    let plugin = CwdHistoryPlugin::new();
    let req = request("make ", "/project/src");
    let results = scored(ask_cwd_history(&plugin, &journal, &no_files(), &req));

    assert!(results.iter().any(|c| c.text == "make test"));
    let candidate = results.iter().find(|c| c.text == "make test").unwrap();
    assert!(score_of(candidate) > 0.0);
}

#[test]
fn test_cd_does_not_fall_back_to_parent_cwd() {
    let mut journal = Journal::default();
    journal.add("cd nested", "/project", 1000);

    let plugin = CwdHistoryPlugin::new();
    let req = request("cd n", "/project/src");
    let results = scored(ask_cwd_history(&plugin, &journal, &no_files(), &req));

    assert!(results.is_empty());
}

#[test]
fn test_partial_cd_prefix_does_not_pull_parent_cd_history() {
    let mut journal = Journal::default();
    journal.add("cd nested", "/project", 1000);

    let plugin = CwdHistoryPlugin::new();
    let req = request("c", "/project/src");
    let results = scored(ask_cwd_history(&plugin, &journal, &no_files(), &req));

    assert!(!results.iter().any(|c| c.text == "cd nested"));
}

#[test]
fn test_deduplicates_across_cwd_levels() {
    let mut journal = Journal::default();
    journal.add("make test", "/project/src", 1000);
    journal.add("make test", "/project", 2000);

    let plugin = CwdHistoryPlugin::new();
    let req = request("make ", "/project/src");
    let results = scored(ask_cwd_history(&plugin, &journal, &no_files(), &req));

    let make_tests: Vec<_> = results.iter().filter(|c| c.text == "make test").collect();
    assert_eq!(make_tests.len(), 1);
}

#[test]
fn test_transition_bonus() {
    let mut journal = Journal::default();
    journal.add("vim main.rs", "/project", 1000);
    journal.add("make test", "/project", 2000);
    journal.add("vim main.rs", "/project", 3000);
    journal.add("make test", "/project", 4000);

    let plugin = CwdHistoryPlugin::new();
    let mut req = request("make ", "/project");
    req.last_command = Some("vim main.rs".into());
    let results = scored(ask_cwd_history(&plugin, &journal, &no_files(), &req));

    assert!(results.iter().any(|c| c.text == "make test"));
}

#[test]
fn transitions_are_shared_among_the_followers() {
    let plugin = CwdHistoryPlugin::new();
    let mut req = request("make ", "/project");
    req.last_command = Some("vim main.rs".into());
    let row = |command: &str| RankedCommand {
        command_line: command.into(),
        timestamp: 9_000,
        frequency: 1,
    };
    let entries = plugin.nearby(vec![row("make a"), row("make b")], vec![row("make c")]);
    let queries = plugin.transition_queries(&req, &entries);
    assert_eq!(queries, vec![TransitionQuery::new("vim main.rs", "make", 5)]);
    let counts = vec![
        TransitionCount {
            command_line: "make b".into(),
            count: 3,
        },
        TransitionCount {
            command_line: "make x".into(),
            count: 1,
        },
    ];
    assert_eq!(total_count(&counts), Some(4));
    let reply = CwdHistoryReply {
        entries,
        home: None,
        found: vec![None, None, None],
        transitions: vec![TransitionReply {
            prefix: "make".into(),
            rows: counts,
        }],
    };
    let proposals = plugin.suggest(&req, reply).into_list();
    let shares: Vec<f32> = proposals
        .iter()
        .map(|p| value(p.features.last_command_transition))
        .collect();
    assert_eq!(shares, vec![0.0, 0.75, 0.0]);
    let near: Vec<f32> = proposals
        .iter()
        .map(|p| value(p.features.cwd_similarity))
        .collect();
    assert_eq!(near, vec![1.0, 1.0, 0.5]);
}

#[test]
fn counts_beyond_what_can_be_held_are_noticed() {
    let huge = TransitionCount {
        command_line: "a".into(),
        count: u64::MAX,
    };
    let one = TransitionCount {
        command_line: "b".into(),
        count: 1,
    };
    assert_eq!(total_count(&vec![huge, one]), None);
}

#[test]
fn the_parent_directory_is_asked_for_less() {
    let plugin = CwdHistoryPlugin::new();
    let req = request("make ", "/project/src");
    assert_eq!(plugin.cwd_query(&req), CwdQuery::new("/project/src", "make ", 20));
    assert_eq!(
        plugin.parent_query(&req),
        Some(CwdQuery::new("/project", "make ", 10))
    );
    assert_eq!(plugin.parent_query(&request("make ", "/")), None);
    assert_eq!(plugin.parent_query(&request("cd x", "/project/src")), None);
    assert_eq!(plugin.query_above(&req, None), None);
}

#[test]
fn what_stands_at_the_path_counts() {
    let mut journal = Journal::default();
    journal.add("vim readme.md", "/w", 1_000);
    journal.add("vim gone.md", "/w", 1_000);
    let plugin = CwdHistoryPlugin::new();
    let req = request("vim ", "/w");
    let list = ask_cwd_history(&plugin, &journal, &workspace(), &req).into_list();
    let of = |text: &str| list.iter().find(|p| p.text == text).unwrap().features.path_exists;
    assert_eq!(value(of("vim readme.md")), 1.0);
    assert_eq!(value(of("vim gone.md")), 0.0);
}

// --------------------------------------------------------------------- path

#[test]
fn test_supports_path_commands() {
    let plugin = PathPlugin::new(false, 256);

    assert!(!plugin.supports(&request("cd ", "/tmp")));
    assert!(plugin.supports(&request("pushd ", "/tmp")));
    assert!(plugin.supports(&request("vim ", "/tmp")));
    assert!(plugin.supports(&request("./foo", "/tmp")));
    assert!(!plugin.supports(&request("echo hello", "/tmp")));
    assert!(!plugin.supports(&request("", "/tmp")));
}

#[test]
fn test_pushd_suggests_directories_only() {
    let mut plugin = PathPlugin::new(false, 256);
    let results = scored(ask_path(&mut plugin, &workspace(), &request("pushd ", "/w")));

    for c in &results {
        assert!(
            c.text.contains("src") || c.text.contains("scripts"),
            "unexpected suggestion: {}",
            c.text
        );
    }
    assert!(!results.iter().any(|c| c.text.contains("readme.md")));
    assert!(!results.iter().any(|c| c.text.contains("Cargo.toml")));
}

#[test]
fn test_vim_suggests_files() {
    let mut plugin = PathPlugin::new(false, 256);
    let results = scored(ask_path(&mut plugin, &workspace(), &request("vim r", "/w")));

    assert!(results.iter().any(|c| c.text.contains("readme.md")));
}

#[test]
fn test_hidden_files_excluded_by_default() {
    let mut plugin = PathPlugin::new(false, 256);
    let results = scored(ask_path(&mut plugin, &workspace(), &request("pushd ", "/w")));

    assert!(!results.iter().any(|c| c.text.contains(".hidden")));
}

#[test]
fn test_hidden_files_included_when_enabled() {
    let mut plugin = PathPlugin::new(true, 256);
    let results = scored(ask_path(&mut plugin, &workspace(), &request("pushd ", "/w")));

    assert!(results.iter().any(|c| c.text.contains(".hidden")));
}

#[test]
fn test_prefix_filtering() {
    let mut plugin = PathPlugin::new(false, 256);
    let results = scored(ask_path(&mut plugin, &workspace(), &request("pushd s", "/w")));

    assert!(results.len() >= 1);
    for c in &results {
        let path_part = c.text.strip_prefix("pushd ").unwrap_or(&c.text);
        assert!(path_part.starts_with('s'), "unexpected: {}", c.text);
    }
}

#[test]
fn test_path_cache_is_populated() {
    let mut plugin = PathPlugin::new(false, 256);
    let _ = ask_path(&mut plugin, &workspace(), &request("pushd ", "/w"));

    assert!(plugin.remembered("/w", 10_000).is_some());
    assert!(plugin.remembered("/w", 10_000 + CACHE_TTL_MS).is_some());
    assert!(plugin.remembered("/w", 10_001 + CACHE_TTL_MS).is_none());
    assert!(plugin.remembered("/other", 10_000).is_none());
}

#[test]
fn the_command_line_around_the_path_is_kept() {
    let mut plugin = PathPlugin::new(false, 256);
    let texts = |plugin: &mut PathPlugin, buffer: &str| -> Vec<String> {
        let req = request(buffer, "/w");
        let list = ask_path(plugin, &workspace(), &req).into_list();
        list.into_iter().map(|p| p.text).collect()
    };
    assert_eq!(texts(&mut plugin, "vim -p  a.txt re"), vec!["vim -p a.txt readme.md"]);
    assert_eq!(texts(&mut plugin, "./re"), vec!["./readme.md"]);
    assert_eq!(texts(&mut plugin, "cat ./car"), vec!["cat ./Cargo.toml"]);
    assert_eq!(texts(&mut plugin, "ls "), vec!["ls src", "ls scripts"]);
}

#[test]
fn names_match_in_either_case() {
    assert!(name_matches("Cargo.toml", "car", "cargo.toml", "car"));
    assert!(name_matches("Cargo.toml", "Car", "x", "y"));
    assert!(name_matches("anything", "", "x", "y"));
    assert!(!name_matches("Cargo.toml", "src", "cargo.toml", "src"));
    let mut plugin = PathPlugin::new(false, 256);
    let mut files = Files::new();
    files.insert("/w".into(), vec![file("ÄPFEL.txt"), file("birnen.txt")]);
    let list = ask_path(&mut plugin, &files, &request("vim äp", "/w")).into_list();
    assert_eq!(list.len(), 1);
    assert_eq!(list[0].text, "vim ÄPFEL.txt");
    assert_eq!(value(list[0].features.prefix_exactness), 0.0);
}

#[test]
fn path_features_are_exact() {
    let mut plugin = PathPlugin::new(false, 256);
    let vim = ask_path(&mut plugin, &workspace(), &request("vim ", "/w")).into_list();
    let of = |text: &str| vim.iter().find(|p| p.text == text).unwrap().features;
    assert_eq!(value(of("vim readme.md").path_exists), 1.0);
    assert_eq!(value(of("vim src").path_exists), 0.3);
    assert_eq!(value(of("vim src").prefix_exactness), 0.1);
    let bare = ask_path(&mut plugin, &workspace(), &request("./src", "/w")).into_list();
    assert_eq!(value(bare[0].features.path_exists), 0.5);
    assert_eq!(value(bare[0].features.prefix_exactness), 1.0);
    assert_eq!(bare[0].kind, SuggestionKind::Path);
}

#[test]
fn hidden_names_that_were_kept_elsewhere_are_left_out() {
    let names = || vec![dir(".git"), file("a"), file(".env"), file("b")];
    let mut plugin = PathPlugin::new(false, 256);
    let kept = plugin.adopt("/d", names(), 5);
    assert_eq!(kept, vec![file("a"), file("b")]);
    assert_eq!(plugin.remembered("/d", 5), Some(kept));
    let mut bounded = PathPlugin::new(false, 3);
    assert_eq!(bounded.adopt("/d", names(), 5), vec![file("a")]);
    let mut open = PathPlugin::new(true, 256);
    assert_eq!(open.adopt("/d", names(), 5), names());

    let req = request("ls .", "/d");
    let entries = plugin.remembered("/d", 5).unwrap();
    let none = plugin.suggest(&req, PathReply { home: None, entries });
    assert!(none.into_list().is_empty());
}

#[test]
fn memory_comes_before_the_database_and_the_file_system_last() {
    let mut plugin = PathPlugin::new(false, 2);
    let action = plugin.next_listing("/d", ListingEvent::Asked, 5);
    assert!(matches!(action, ListingAction::AskDatabase));
    let action = plugin.next_listing("/d", ListingEvent::Kept { names: None }, 5);
    assert!(matches!(action, ListingAction::ReadDirectory { limit: 2 }));
    let action = plugin.next_listing("/d", ListingEvent::Read { listing: None }, 5);
    assert!(matches!(action, ListingAction::Done { entries } if entries.is_empty()));
    assert!(plugin.remembered("/d", 5).is_none());

    let listing = Some(vec![Some(dir(".git")), Some(file("a")), Some(file("b"))]);
    let action = plugin.next_listing("/d", ListingEvent::Read { listing }, 5);
    assert!(matches!(action, ListingAction::Store { entries } if entries == vec![file("a")]));
    let action = plugin.next_listing("/d", ListingEvent::Asked, 6);
    assert!(matches!(action, ListingAction::Done { entries } if entries == vec![file("a")]));

    let names = Some(vec![file("x"), file("y"), file("z")]);
    let action = plugin.next_listing("/e", ListingEvent::Kept { names }, 5);
    assert!(
        matches!(action, ListingAction::Done { entries } if entries == vec![file("x"), file("y")])
    );
}

#[test]
fn commands_side_by_side_follow_each_other() {
    let runs = [
        ("one", "git add ."),
        ("one", "git commit"),
        ("one", "git add ."),
        ("one", "git commit"),
        ("two", "git add ."),
        ("two", "git push"),
    ];
    let mut journal = Journal::default();
    for (session, command) in runs {
        journal.insert(&JournalEntry {
            id: None,
            command_line: command.into(),
            cwd: "/p".into(),
            exit_code: Some(0),
            duration_ms: None,
            session_id: session.into(),
            timestamp: 1,
        });
    }
    let mut adjacent: BTreeMap<(String, String), i64> = BTreeMap::new();
    for pair in runs.windows(2) {
        if pair[0].0 == pair[1].0 {
            let key = (pair[0].1.to_string(), pair[1].1.to_string());
            *adjacent.entry(key).or_insert(0) += 1;
        }
    }
    assert_eq!(journal.transitions, adjacent);
}

#[test]
fn no_more_entries_are_kept_than_allowed() {
    let mut plugin = PathPlugin::new(false, 2);
    let kept = plugin.adopt("/d", vec![file("a"), file("b"), file("c")], 5);
    assert_eq!(kept, vec![file("a"), file("b")]);
    assert_eq!(plugin.remembered("/d", 5), Some(kept));
    let items = vec![None, Some(dir(".git")), Some(file("a"))];
    assert!(plugin.take_listing("/e", items, 5).is_empty());
    let row = plugin.cache_row("/d", "[]".into(), &vec![file("a")], 9);
    assert_eq!((row.entry_count, row.cached_at), (1, 9));
    assert_eq!(row.dir_path, "/d");
}

#[test]
fn home_directories_need_a_home() {
    let plugin = PathPlugin::new(false, 256);
    let req = request("vim ~/do", "/w");
    assert_eq!(plugin.directory(&req, Some("/home/me")), Some("/home/me/".into()));
    assert_eq!(plugin.directory(&req, None), None);
    assert_eq!(plugin.directory(&request("vim a/b", "/w"), None), Some("/w/a/".into()));
    assert_eq!(plugin.directory(&request("vim /etc/h", "/w"), None), Some("/etc/".into()));
    let reply = PathReply {
        home: None,
        entries: vec![file("doc")],
    };
    assert!(plugin.suggest(&req, reply).into_list().is_empty());
}

// ---------------------------------------------------------------- cd assist

#[test]
fn test_cd_assist_only_runs_for_cd_prefixes() {
    let plugin = CdAssistPlugin::new(CdFallbackMode::CurrentDirOnly);
    assert!(!plugin.supports(&request("vim s", "/tmp")));
    assert!(!plugin.supports(&request("cd ", "/tmp")));
    assert!(plugin.supports(&request("cd s", "/tmp")));
}

#[test]
fn test_cd_assist_uses_local_directories_when_no_history_exists() {
    let plugin = CdAssistPlugin::new(CdFallbackMode::CurrentDirOnly);
    let journal = Journal::default();
    let req = request("cd s", "/w");
    let results = scored(ask_cd_assist(&plugin, &journal, &workspace(), &req));

    assert!(results.iter().any(|candidate| candidate.text == "cd src"));
    assert!(results
        .iter()
        .any(|candidate| candidate.text == "cd scripts"));
}

#[test]
fn test_cd_assist_is_disabled_when_cwd_history_exists() {
    let plugin = CdAssistPlugin::new(CdFallbackMode::CurrentDirOnly);
    let mut journal = Journal::default();
    journal.add("cd src", "/w", 1_000);
    let results = scored(ask_cd_assist(&plugin, &journal, &workspace(), &request("cd s", "/w")));

    assert!(results.is_empty());
}

#[test]
fn test_cd_assist_supports_relative_path_prefixes() {
    let mut files = Files::new();
    files.insert("/t/app".into(), vec![dir("src")]);
    files.insert("/t/app/..".into(), vec![dir("app"), dir("shared")]);
    let plugin = CdAssistPlugin::new(CdFallbackMode::CurrentDirOnly);
    let journal = Journal::default();

    let req = request("cd ./s", "/t/app");
    assert_eq!(plugin.directory(&req, false), Some("/t/app/./".into()));
    let current_results = scored(ask_cd_assist(&plugin, &journal, &files, &req));
    assert!(current_results
        .iter()
        .any(|candidate| candidate.text == "cd ./src"));

    let req = request("cd ../s", "/t/app");
    let parent_results = scored(ask_cd_assist(&plugin, &journal, &files, &req));
    assert!(parent_results
        .iter()
        .any(|candidate| candidate.text == "cd ../shared"));
}

#[test]
fn test_cd_assist_can_be_disabled_via_config_mode() {
    let plugin = CdAssistPlugin::new(CdFallbackMode::Disabled);
    let req = request("cd s", "/w");

    assert!(!plugin.supports(&req));
    let journal = Journal::default();
    assert!(ask_cd_assist(&plugin, &journal, &workspace(), &req)
        .into_list()
        .is_empty());
}

#[test]
fn reading_stops_at_the_first_error() {
    let plugin = CdAssistPlugin::new(CdFallbackMode::CurrentDirOnly);
    let reply = CdAssistReply {
        has_history: false,
        listing: Some(vec![Some(dir("sa")), None, Some(dir("sb"))]),
    };
    let list = plugin.suggest(&request("cd s", "/w"), reply).into_list();
    assert_eq!(list.len(), 1);
    assert_eq!(list[0].text, "cd sa");
    assert_eq!(list[0].features.prefix_exactness, Share { part: 1, whole: 2 });
    assert_eq!(value(list[0].features.cwd_similarity), 1.0);
    assert_eq!(value(list[0].features.path_exists), 1.0);
    assert_eq!(plugin.directory(&request("cd /etc", "/w"), false), None);
    assert_eq!(plugin.directory(&request("cd ~/a", "/w"), false), None);
    assert_eq!(plugin.directory(&request("cd a/", "/w"), false), None);
    assert_eq!(plugin.directory(&request("cd s", "/w"), true), None);
}

// ------------------------------------------------------------------- broker

#[test]
fn test_broker_returns_best_candidate() {
    let mut journal = Journal::default();
    journal.add("cd src", "/project", 1000);
    journal.add("cd scripts", "/project", 2000);

    let mut broker = Broker::new(options());
    let result = suggest(&mut broker, &journal, &no_files(), &request("cd s", "/project"));
    assert!(!result.is_empty());
    let candidate = result.into_iter().next().unwrap();
    assert!(candidate.text.starts_with("cd s"));
}

#[test]
fn test_broker_deduplicates_across_plugins() {
    let mut journal = Journal::default();
    journal.add("make test", "/project", 1000);
    journal.add("make test", "/project", 2000);

    let mut broker = Broker::new(options());
    let result = suggest(&mut broker, &journal, &no_files(), &request("make ", "/project"));
    assert!(!result.is_empty());
    assert_eq!(result.len(), 1);
}

#[test]
fn test_broker_cwd_history_beats_plain_history() {
    let mut journal = Journal::default();
    journal.add("make deploy", "/other", 5000);
    journal.add("make test", "/project", 1000);

    let mut broker = Broker::new(options());
    let result = suggest(&mut broker, &journal, &no_files(), &request("make ", "/project"));
    assert!(!result.is_empty());
    assert_eq!(result[0].text, "make test");
}

#[test]
fn test_broker_path_plugin_integration() {
    let mut files = Files::new();
    files.insert("/t".into(), vec![dir("src"), dir("scripts")]);
    let mut broker = Broker::new(options());

    let result = suggest(&mut broker, &Journal::default(), &files, &request("pushd s", "/t"));
    assert!(!result.is_empty());
    let text = result[0].text.clone();
    assert!(text == "pushd src" || text == "pushd scripts");
}

#[test]
fn test_broker_cd_uses_current_pwd_history_only() {
    let mut files = Files::new();
    files.insert("/t".into(), vec![dir("src")]);
    let mut journal = Journal::default();
    journal.add("cd src", "/other", 1000);
    let mut broker = Broker::new(options());

    let results = suggest(&mut broker, &journal, &files, &request("cd s", "/t"));
    assert_eq!(results[0].source, "cd_assist");
}

#[test]
fn test_broker_empty_buffer_returns_none() {
    let mut broker = Broker::new(options());
    let req = request("", "/tmp");
    assert!(suggest(&mut broker, &Journal::default(), &no_files(), &req).is_empty());
}

#[test]
fn test_dangerous_commands_filtered() {
    let mut journal = Journal::default();
    journal.add("rm -rf /important", "/project", 9000);

    let mut broker = Broker::new(options());
    let result = suggest(&mut broker, &journal, &no_files(), &request("rm ", "/project"));
    if let Some(candidate) = result.first() {
        assert!(
            score_of(candidate) >= 0.6,
            "dangerous command with low score should be filtered"
        );
    }
    assert!(result.is_empty());
}

#[test]
fn test_broker_truncates_to_max_candidates() {
    let mut journal = Journal::default();
    for idx in 0..10 {
        journal.add(&format!("echo item{idx}"), "/project", 1_000 + idx);
    }

    let mut broker = Broker::new(BrokerOptions {
        max_candidates: 3,
        ..options()
    });
    let result = suggest(&mut broker, &journal, &no_files(), &request("echo ", "/project"));
    assert_eq!(result.len(), 3);
}

#[test]
fn test_broker_uses_last_command_transition_to_break_ties() {
    let mut journal = Journal::default();
    journal.add("vim main.rs", "/project", 1_000);
    journal.add("make test", "/project", 2_000);
    journal.add("vim main.rs", "/project", 3_000);
    journal.add("make test", "/project", 4_000);
    journal.add("make build", "/project", 4_000);

    let mut broker = Broker::new(options());
    let mut req = request("make ", "/project");
    req.last_command = Some("vim main.rs".into());

    let result = suggest(&mut broker, &journal, &no_files(), &req);
    assert!(!result.is_empty());
    assert_eq!(result[0].text, "make test");
}

#[test]
fn golden_cwd_aware_cd() {
    let mut journal = Journal::default();
    journal.add("cd src", "/w", 1000);
    journal.add("cd scripts", "/w", 2000);
    journal.add("cd somewhere", "/other", 3000);
    let mut broker = Broker::new(options());
    let results = suggest(&mut broker, &journal, &workspace(), &request("cd s", "/w"));
    assert_eq!(results[0].text, "cd src");
    assert_eq!(results[0].source, "cwd_history");
    assert_eq!((score_of(&results[0]) * 1000.0).round() / 1000.0, 0.8);
    assert!(!results.iter().any(|c| c.text == "cd somewhere"));
}

#[test]
fn golden_cd_requires_current_pwd_history() {
    let mut journal = Journal::default();
    journal.add("cd src", "/other", 1000);
    let mut files = Files::new();
    files.insert("/w".into(), vec![dir("src")]);
    let mut broker = Broker::new(options());
    let results = suggest(&mut broker, &journal, &files, &request("cd s", "/w"));
    assert_eq!(results[0].text, "cd src");
    assert_eq!(results[0].source, "cd_assist");
}

#[test]
fn golden_history_fallback() {
    let mut journal = Journal::default();
    journal.add("docker compose up", "/any", 1000);
    journal.add("docker compose down", "/any", 2000);
    let mut broker = Broker::new(options());
    let req = request("docker comp", "/unrelated");
    let results = suggest(&mut broker, &journal, &no_files(), &req);
    assert_eq!(results[0].text, "docker compose up");
    assert_eq!(results[0].source, "history");
}

#[test]
fn golden_vim_file_match() {
    let mut files = Files::new();
    files.insert("/t".into(), vec![file("readme.md"), file("requirements.txt")]);
    let mut broker = Broker::new(options());
    let results = suggest(&mut broker, &Journal::default(), &files, &request("vim rea", "/t"));
    assert_eq!(results[0].text, "vim readme.md");
    assert_eq!(results[0].source, "path");
}

#[test]
fn golden_cwd_history_priority() {
    let mut journal = Journal::default();
    journal.add("make test", "/project", 1000);
    journal.add("make test", "/project", 2000);
    journal.add("make test", "/project", 3000);
    journal.add("make build", "/other", 4000);
    journal.add("make deploy", "/other", 5000);
    let mut broker = Broker::new(options());
    let results = suggest(&mut broker, &journal, &no_files(), &request("make ", "/project"));
    assert_eq!(results[0].text, "make test");
    assert_eq!(results[0].source, "cwd_history");
}

#[test]
fn golden_no_match() {
    let mut journal = Journal::default();
    journal.add("cd src", "/project", 1000);
    let mut broker = Broker::new(options());
    let req = request("zzz_nonexistent", "/project");
    assert!(suggest(&mut broker, &journal, &no_files(), &req).is_empty());
}

fn candidate(text: &str, source: &str, score: f32) -> SuggestionCandidate {
    SuggestionCandidate {
        text: text.into(),
        source: source.into(),
        score: Score {
            bits: score.to_bits(),
            text: score.to_string(),
        },
        kind: SuggestionKind::Command,
    }
}

fn only_cwd(candidates: Vec<SuggestionCandidate>) -> ProvidedCandidates {
    ProvidedCandidates {
        history: Vec::new(),
        cwd_history: candidates,
        path: Vec::new(),
        cd_assist: Vec::new(),
    }
}

#[test]
fn scores_are_ordered_as_numbers() {
    let broker = Broker::new(options());
    let provided = only_cwd(vec![
        candidate("a", "cwd_history", -1.0),
        candidate("rm b", "cwd_history", -1.0),
        candidate("c", "cwd_history", -0.0),
        candidate("d", "cwd_history", 0.0),
        candidate("e", "cwd_history", -0.5),
        candidate("f", "cwd_history", 0.25),
    ]);
    let chosen = broker.suggest(&request("x", "/w"), provided);
    let texts: Vec<&str> = chosen.iter().map(|c| c.text.as_str()).collect();
    assert_eq!(texts, vec!["f", "c", "d", "e", "a"]);
}

#[test]
fn the_choice_is_stable_and_without_repeats() {
    let broker = Broker::new(options());
    let provided = only_cwd(vec![
        candidate("a", "1", 0.2),
        candidate("b", "2", 0.5),
        candidate("c", "3", 0.5),
        candidate("a", "4", 0.7),
        candidate("rm x", "5", 0.59),
        candidate("mv x", "6", 0.61),
        candidate("b", "7", 0.5),
    ]);
    let chosen = broker.suggest(&request("x", "/"), provided);
    let sources: Vec<&str> = chosen.iter().map(|c| c.source.as_str()).collect();
    assert_eq!(sources, vec!["4", "6", "2", "3"]);
}

#[test]
fn candidates_of_providers_that_are_not_asked_are_dropped() {
    let broker = Broker::new(options());
    let provided = ProvidedCandidates {
        history: vec![candidate("cd a", "history", 0.9)],
        cwd_history: vec![candidate("cd b", "cwd_history", 0.5)],
        path: vec![candidate("cd c", "path", 0.8)],
        cd_assist: vec![candidate("cd d", "cd_assist", 0.7)],
    };
    let chosen = broker.suggest(&request("cd x", "/"), provided);
    let texts: Vec<&str> = chosen.iter().map(|c| c.text.as_str()).collect();
    assert_eq!(texts, vec!["cd d", "cd b"]);
}

// ------------------------------------------------------------------ runtime

fn answer(
    runtime: &mut QueryRuntime,
    journal: &mut Journal,
    files: &Files,
    message: &ClientMessage,
) -> DaemonMessage {
    let line = encode_client_message(message);
    let reply = match runtime.receive(&line, 10_000) {
        RuntimeAction::Suggest { request } => {
            let provided = provide(&mut runtime.broker, journal, files, &request);
            runtime.complete(request, provided)
        }
        RuntimeAction::Reply { reply } => reply,
        RuntimeAction::RecordFeedback { reply, .. } => reply,
        RuntimeAction::RecordJournal { entry, reply } => {
            journal.insert(&entry);
            reply
        }
    };
    let line = answer_line(&reply);
    assert_eq!(line.matches('\n').count(), 1);
    assert_eq!(parse_daemon_message(line.trim_end_matches('\n')).unwrap(), reply);
    reply
}

fn suggest_message(request_id: u64, buffer: &str, cwd: &str, session_id: &str) -> ClientMessage {
    ClientMessage::Suggest {
        request_id,
        buffer: buffer.into(),
        cursor: buffer.len(),
        cwd: cwd.into(),
        session_id: session_id.into(),
        last_command: None,
    }
}

fn cycle_message(session_id: &str, direction: CycleDirection) -> ClientMessage {
    ClientMessage::Cycle {
        session_id: session_id.into(),
        direction,
    }
}

fn shown(reply: &DaemonMessage) -> (u64, usize, usize, String, String) {
    match reply {
        DaemonMessage::Suggestion {
            request_id,
            candidate_count,
            candidate_index,
            source,
            text,
            ..
        } => (
            *request_id,
            *candidate_count,
            *candidate_index,
            source.clone(),
            text.clone(),
        ),
        other => panic!("unexpected response: {other:?}"),
    }
}

#[test]
fn test_query_suggest_record_roundtrip() {
    let files = workspace();
    let mut journal = Journal::default();
    journal.add("cd src", "/w", 1_000);
    let mut runtime = QueryRuntime::new(options());

    let message = suggest_message(1, "cd s", "/w", "integration-test");
    let reply = answer(&mut runtime, &mut journal, &files, &message);
    let (request_id, count, index, source, _) = shown(&reply);
    assert_eq!(request_id, 1);
    assert_eq!(source, "cwd_history");
    assert_eq!(index, 0);
    assert_eq!(count, 1);

    for (command, exit_code) in [("cd src", 0), ("cd missing-dir", 1)] {
        let record = ClientMessage::Record {
            command: command.into(),
            cwd: "/w".into(),
            exit_code,
            duration_ms: 5,
            session_id: "integration-test".into(),
        };
        assert_eq!(
            answer(&mut runtime, &mut journal, &files, &record),
            DaemonMessage::Ack { request_id: 0 }
        );
    }
    let recorded = journal.ranked(&PrefixQuery::new("cd ", 10));
    assert!(recorded.iter().any(|entry| entry.command_line == "cd src"));
    assert!(!recorded
        .iter()
        .any(|entry| entry.command_line == "cd missing-dir"));
}

#[test]
fn test_query_cycle_and_feedback_roundtrip() {
    let files = workspace();
    let mut journal = Journal::default();
    let mut runtime = QueryRuntime::new(options());

    let message = suggest_message(7, "cd s", "/w", "cycle-test");
    let first = shown(&answer(&mut runtime, &mut journal, &files, &message));
    assert_eq!((first.0, first.1, first.2), (7, 2, 0));

    let message = cycle_message("cycle-test", CycleDirection::Next);
    let second = shown(&answer(&mut runtime, &mut journal, &files, &message));
    assert_eq!((second.0, second.1, second.2), (7, 2, 1));

    let feedback = ClientMessage::Feedback {
        command: second.4.clone(),
        source: second.3.clone(),
        score: "0.5".into(),
        accepted: true,
        session_id: "cycle-test".into(),
    };
    match runtime.handle_message(feedback, 77) {
        RuntimeAction::RecordFeedback { entry, reply } => {
            assert_eq!(entry.command_line, second.4);
            assert_eq!(entry.source, "cd_assist");
            assert_eq!(entry.score.as_deref(), Some("0.5"));
            assert!(entry.accepted);
            assert_eq!(entry.timestamp, 77);
            assert_eq!(reply, DaemonMessage::Ack { request_id: 0 });
        }
        other => panic!("unexpected action: {other:?}"),
    }
}

#[test]
fn test_query_cycle_wraps_around_in_both_directions() {
    let files = workspace();
    let mut journal = Journal::default();
    let mut runtime = QueryRuntime::new(options());

    let message = suggest_message(11, "cd s", "/w", "cycle-wrap-test");
    let first = shown(&answer(&mut runtime, &mut journal, &files, &message));
    assert_eq!((first.0, first.1, first.2), (11, 2, 0));

    let message = cycle_message("cycle-wrap-test", CycleDirection::Prev);
    let last = shown(&answer(&mut runtime, &mut journal, &files, &message));
    assert_eq!(last.2, 1);
    assert_ne!(last.4, first.4);

    let message = cycle_message("cycle-wrap-test", CycleDirection::Next);
    let back = shown(&answer(&mut runtime, &mut journal, &files, &message));
    assert_eq!(back.2, 0);
    assert_eq!(back.4, first.4);
}

#[test]
fn test_query_respects_disabled_cd_fallback() {
    let mut journal = Journal::default();
    let mut runtime = QueryRuntime::new(BrokerOptions {
        cd_fallback_mode: CdFallbackMode::Disabled,
        ..options()
    });
    let message = suggest_message(3, "cd s", "/w", "config-test");
    let reply = shown(&answer(&mut runtime, &mut journal, &workspace(), &message));
    assert_eq!(reply.0, 3);
    assert_eq!(reply.1, 0);
    assert!(reply.4.is_empty());
}

#[test]
fn sessions_are_kept_apart() {
    let files = workspace();
    let mut journal = Journal::default();
    let mut runtime = QueryRuntime::new(options());
    for (id, session) in [(1, "a"), (2, "b")] {
        let message = suggest_message(id, "cd s", "/w", session);
        answer(&mut runtime, &mut journal, &files, &message);
    }
    let next = cycle_message("a", CycleDirection::Next);
    assert_eq!(shown(&answer(&mut runtime, &mut journal, &files, &next)).2, 1);
    let next = cycle_message("b", CycleDirection::Next);
    let b = shown(&answer(&mut runtime, &mut journal, &files, &next));
    assert_eq!((b.0, b.2), (2, 1));
    let unknown = cycle_message("c", CycleDirection::Next);
    assert_eq!(
        answer(&mut runtime, &mut journal, &files, &unknown),
        DaemonMessage::Suggestion {
            request_id: 0,
            candidate_count: 0,
            candidate_index: 0,
            source: String::new(),
            score: "0".into(),
            text: String::new(),
        }
    );
}

#[test]
fn a_line_that_is_no_message_is_answered() {
    let mut runtime = QueryRuntime::new(options());
    match runtime.receive("bogus", 0) {
        RuntimeAction::Reply { reply } => assert_eq!(
            reply,
            DaemonMessage::Error {
                message: "parse error: unknown client message type: bogus".into(),
                request_id: 0,
            }
        ),
        other => panic!("unexpected action: {other:?}"),
    }
}

#[test]
fn feedback_without_a_command_is_not_recorded() {
    let mut runtime = QueryRuntime::new(options());
    for (command, source) in [("", "history"), ("ls", "")] {
        let feedback = ClientMessage::Feedback {
            command: command.into(),
            source: source.into(),
            score: "1".into(),
            accepted: false,
            session_id: "s".into(),
        };
        assert!(matches!(
            runtime.handle_message(feedback, 1),
            RuntimeAction::Reply { .. }
        ));
    }
}

#[test]
fn the_database_has_its_place() {
    assert_eq!(
        default_db_path(Some("/data"), Some("/h")),
        "/data/shellsuggest/journal.db"
    );
    assert_eq!(
        default_db_path(None, Some("/h")),
        "/h/.local/share/shellsuggest/journal.db"
    );
    assert_eq!(
        default_db_path(None, None),
        "/tmp/.local/share/shellsuggest/journal.db"
    );
}
