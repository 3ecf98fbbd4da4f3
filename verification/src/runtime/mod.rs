//! One query process: what it does with each message, and what it remembers of
//! each session.
use vstd::hash_map::StringHashMap;
use vstd::prelude::*;
use crate::config::{CdFallbackMode, Config};
use crate::daemon::broker;
use crate::daemon::broker::{Broker, BrokerOptions, ProvidedCandidates};
use crate::db::models::{FeedbackEntry, JournalEntry};
use crate::number;
use crate::paths;
use crate::plugin::path::MemoryCacheEntry;
use crate::plugin::{SuggestionCandidate, SuggestionRequest};
use crate::protocol;
use crate::protocol::{ClientMessage, ClientView, CycleDirection, DaemonMessage, DaemonView};
use crate::ranking;
use crate::text;

verus! {

/// What is to be done about a message.
#[derive(Debug, Clone)]
pub enum RuntimeAction {
    /// Ask the providers, then go on with `QueryRuntime::complete`.
    Suggest { request: SuggestionRequest },
    /// Answer.
    Reply { reply: DaemonMessage },
    /// Record what became of a suggestion, then answer.
    RecordFeedback { entry: FeedbackEntry, reply: DaemonMessage },
    /// Record a command, then answer.
    RecordJournal { entry: JournalEntry, reply: DaemonMessage },
}

/// The contents of a `RuntimeAction`.
pub enum ActionView {
    Suggest {
        request_id: u64,
        buffer: Seq<char>,
        cursor: usize,
        cwd: Seq<char>,
        session_id: Seq<char>,
        last_command: Option<Seq<char>>,
        timestamp_ms: u64,
    },
    Reply { reply: DaemonView },
    RecordFeedback {
        id: Option<i64>,
        command_line: Seq<char>,
        source: Seq<char>,
        score: Option<Seq<char>>,
        accepted: bool,
        session_id: Seq<char>,
        timestamp: u64,
        reply: DaemonView,
    },
    RecordJournal {
        id: Option<i64>,
        command_line: Seq<char>,
        cwd: Seq<char>,
        exit_code: Option<i32>,
        duration_ms: Option<u64>,
        session_id: Seq<char>,
        timestamp: u64,
        reply: DaemonView,
    },
}

impl View for RuntimeAction {
    type V = ActionView;

    open spec fn view(&self) -> ActionView {
        match *self {
            RuntimeAction::Suggest { request } => ActionView::Suggest {
                request_id: request.request_id,
                buffer: request.buffer@,
                cursor: request.cursor,
                cwd: request.cwd@,
                session_id: request.session_id@,
                last_command: text::option_view(request.last_command),
                timestamp_ms: request.timestamp_ms,
            },
            RuntimeAction::Reply { reply } => ActionView::Reply { reply: reply@ },
            RuntimeAction::RecordFeedback { entry, reply } => ActionView::RecordFeedback {
                id: entry.id,
                command_line: entry.command_line@,
                source: entry.source@,
                score: text::option_view(entry.score),
                accepted: entry.accepted,
                session_id: entry.session_id@,
                timestamp: entry.timestamp,
                reply: reply@,
            },
            RuntimeAction::RecordJournal { entry, reply } => ActionView::RecordJournal {
                id: entry.id,
                command_line: entry.command_line@,
                cwd: entry.cwd@,
                exit_code: entry.exit_code,
                duration_ms: entry.duration_ms,
                session_id: entry.session_id@,
                timestamp: entry.timestamp,
                reply: reply@,
            },
        }
    }
}

/// What was last suggested in a session.
struct Suggested {
    request_id: u64,
    candidates: Vec<SuggestionCandidate>,
}

/// What was last suggested in a session, and which of it is shown.
pub struct Session {
    pub request_id: u64,
    pub candidates: Seq<SuggestionCandidate>,
    pub selected: int,
}

impl Session {
    /// The candidate that is shown is one of those that were suggested.
    pub open spec fn wf(self) -> bool {
        0 <= self.selected < self.candidates.len() || self.selected == 0 && self.candidates.len()
            == 0
    }
}

/// A query process.
pub struct QueryRuntime {
    pub broker: Broker,
    suggested: StringHashMap<Suggested>,
    selected: StringHashMap<usize>,
}

/// The answer that shows one of some candidates.
pub open spec fn shown(
    request_id: u64,
    selected: int,
    candidates: Seq<SuggestionCandidate>,
) -> DaemonView {
    if 0 <= selected < candidates.len() {
        DaemonView::Suggestion {
            request_id,
            candidate_count: candidates.len() as usize,
            candidate_index: selected as usize,
            source: candidates[selected].source@,
            score: candidates[selected].score.text@,
            text: candidates[selected].text@,
        }
    } else {
        DaemonView::Suggestion {
            request_id,
            candidate_count: 0,
            candidate_index: 0,
            source: Seq::empty(),
            score: "0"@,
            text: Seq::empty(),
        }
    }
}

/// The candidate that comes next in a direction, around the end.
pub open spec fn moved(selected: int, count: int, direction: CycleDirection) -> int {
    if count == 0 {
        selected
    } else {
        match direction {
            CycleDirection::Next => (selected + 1) % count,
            CycleDirection::Prev => (selected + count - 1) % count,
        }
    }
}

/// The session after a move.
pub open spec fn cycled(session: Session, direction: CycleDirection) -> Session {
    Session {
        selected: moved(session.selected, session.candidates.len() as int, direction),
        ..session
    }
}

/// The sessions after a message.
pub open spec fn sessions_after(
    sessions: Map<Seq<char>, Session>,
    message: ClientView,
) -> Map<Seq<char>, Session> {
    match message {
        ClientView::Cycle { session_id, direction } if sessions.contains_key(session_id) => {
            sessions.insert(session_id, cycled(sessions[session_id], direction))
        },
        _ => sessions,
    }
}

/// What is done about a message.
pub open spec fn action_for(
    sessions: Map<Seq<char>, Session>,
    message: ClientView,
    now_ms: u64,
) -> ActionView {
    let ack = DaemonView::Ack { request_id: 0 };
    match message {
        ClientView::Suggest { request_id, buffer, cursor, cwd, session_id, last_command } => {
            ActionView::Suggest {
                request_id,
                buffer,
                cursor,
                cwd,
                session_id,
                last_command,
                timestamp_ms: now_ms,
            }
        },
        ClientView::Cycle { session_id, direction } => {
            if sessions.contains_key(session_id) {
                let s = cycled(sessions[session_id], direction);
                ActionView::Reply { reply: shown(s.request_id, s.selected, s.candidates) }
            } else {
                ActionView::Reply { reply: shown(0, 0, Seq::empty()) }
            }
        },
        ClientView::Feedback { command, source, score, accepted, session_id } => {
            if command.len() > 0 && source.len() > 0 {
                ActionView::RecordFeedback {
                    id: None,
                    command_line: command,
                    source,
                    score: Some(score),
                    accepted,
                    session_id,
                    timestamp: now_ms,
                    reply: ack,
                }
            } else {
                ActionView::Reply { reply: ack }
            }
        },
        ClientView::Record { command, cwd, exit_code, duration_ms, session_id } => {
            if exit_code == 0 {
                ActionView::RecordJournal {
                    id: None,
                    command_line: command,
                    cwd,
                    exit_code: Some(exit_code),
                    duration_ms: Some(duration_ms),
                    session_id,
                    timestamp: now_ms,
                    reply: ack,
                }
            } else {
                ActionView::Reply { reply: ack }
            }
        },
    }
}

/// The answer to a line that is no message.
pub open spec fn refusal(reason: Seq<char>) -> DaemonView {
    DaemonView::Error { message: "parse error: "@ + reason, request_id: 0 }
}

fn suggestion_message(
    request_id: u64,
    selected_index: usize,
    candidates: &Vec<SuggestionCandidate>,
) -> (r: DaemonMessage)
    ensures
        r@ == shown(request_id, selected_index as int, candidates@),
{
    if selected_index < candidates.len() {
        let candidate = &candidates[selected_index];
        DaemonMessage::Suggestion {
            request_id,
            candidate_count: candidates.len(),
            candidate_index: selected_index,
            source: candidate.source.clone(),
            score: candidate.score.text.clone(),
            text: candidate.text.clone(),
        }
    } else {
        DaemonMessage::Suggestion {
            request_id,
            candidate_count: 0,
            candidate_index: 0,
            source: String::new(),
            score: text::copy_str("0"),
            text: String::new(),
        }
    }
}

fn step(selected: usize, count: usize, direction: CycleDirection) -> (r: usize)
    requires
        selected < count || selected == 0 && count == 0,
    ensures
        r == moved(selected as int, count as int, direction),
        r < count || r == 0 && count == 0,
{
    if count == 0 {
        return selected;
    }
    match direction {
        CycleDirection::Next => {
            proof {
                lemma_moved(selected as int, count as int);
            }
            if selected + 1 == count {
                0
            } else {
                selected + 1
            }
        },
        CycleDirection::Prev => {
            proof {
                lemma_moved(selected as int, count as int);
            }
            if selected == 0 {
                count - 1
            } else {
                selected - 1
            }
        },
    }
}

proof fn lemma_moved(selected: int, count: int)
    requires
        0 <= selected < count,
    ensures
        moved(selected, count, CycleDirection::Next) == (if selected + 1 == count {
            0
        } else {
            selected + 1
        }),
        moved(selected, count, CycleDirection::Prev) == (if selected == 0 {
            count - 1
        } else {
            selected - 1
        }),
{
    assert((selected + 1) % count == (if selected + 1 == count {
        0
    } else {
        selected + 1
    })) by (nonlinear_arith)
        requires
            0 <= selected < count,
    ;
    assert((selected + count - 1) % count == (if selected == 0 {
        count - 1
    } else {
        selected - 1
    })) by (nonlinear_arith)
        requires
            0 <= selected < count,
    ;
}

impl QueryRuntime {
    /// The providers and the choice among what they have.
    pub closed spec fn providers(self) -> Broker {
        self.broker
    }

    /// What is remembered of each session.
    pub closed spec fn sessions(self) -> Map<Seq<char>, Session> {
        Map::new(
            |id: Seq<char>| self.suggested@.contains_key(id),
            |id: Seq<char>|
                Session {
                    request_id: self.suggested@[id].request_id,
                    candidates: self.suggested@[id].candidates@,
                    selected: self.selected@[id] as int,
                },
        )
    }

    /// What is remembered fits together.
    pub closed spec fn wf(self) -> bool {
        &&& forall|id: Seq<char>| #[trigger]
            self.suggested@.contains_key(id) <==> self.selected@.contains_key(id)
        &&& forall|id: Seq<char>| #[trigger]
            self.suggested@.contains_key(id) ==> self.sessions()[id].wf()
    }

    pub fn new(options: BrokerOptions) -> (r: Self)
        ensures
            r.wf(),
            r.sessions() == Map::<Seq<char>, Session>::empty(),
            r.providers().path.wf(),
            r.providers().path.cache() == Map::<Seq<char>, MemoryCacheEntry>::empty(),
            r.providers().path.shows_hidden() == options.path_show_hidden,
            r.providers().path.bound() == options.path_max_entries,
            r.providers().cd_assist.fallback() == options.cd_fallback_mode,
            r.providers().max_candidates == options.max_candidates,
    {
        let r = QueryRuntime {
            broker: Broker::new(options),
            suggested: StringHashMap::new(),
            selected: StringHashMap::new(),
        };
        assert(r.sessions() =~= Map::<Seq<char>, Session>::empty());
        r
    }

    /// A query process set up as configured.
    pub fn from_config(config: &Config) -> (r: Self)
        ensures
            r.wf(),
            r.sessions() == Map::<Seq<char>, Session>::empty(),
            r.providers().path.wf(),
            r.providers().path.cache() == Map::<Seq<char>, MemoryCacheEntry>::empty(),
            r.providers().path.shows_hidden() == config@.show_hidden,
            r.providers().path.bound() == config@.max_entries,
            r.providers().cd_assist.fallback() == (if config@.fallback_mode == "disabled"@ {
                CdFallbackMode::Disabled
            } else {
                CdFallbackMode::CurrentDirOnly
            }),
            r.providers().max_candidates == config@.max_candidates,
    {
        QueryRuntime::new(
            BrokerOptions {
                path_show_hidden: config.path.show_hidden,
                path_max_entries: config.path.max_entries,
                max_candidates: config.ui.max_candidates,
                cd_fallback_mode: config.cd_fallback_mode(),
            },
        )
    }

    /// What is to be done about a message that came at `now_ms`.
    pub fn handle_message(&mut self, message: ClientMessage, now_ms: u64) -> (r: RuntimeAction)
        requires
            old(self).wf(),
        ensures
            final(self).wf(),
            r@ == action_for(old(self).sessions(), message@, now_ms),
            final(self).sessions() == sessions_after(old(self).sessions(), message@),
            final(self).providers() == old(self).providers(),
    {
        match message {
            ClientMessage::Suggest {
                request_id,
                buffer,
                cursor,
                cwd,
                session_id,
                last_command,
            } => {
                RuntimeAction::Suggest {
                    request: SuggestionRequest {
                        request_id,
                        buffer,
                        cursor,
                        cwd,
                        session_id,
                        last_command,
                        timestamp_ms: now_ms,
                    },
                }
            },
            ClientMessage::Cycle { session_id, direction } => {
                RuntimeAction::Reply { reply: self.cycle(session_id, direction) }
            },
            ClientMessage::Feedback { command, source, score, accepted, session_id } => {
                let reply = DaemonMessage::Ack { request_id: 0 };
                if command.as_str().is_empty() || source.as_str().is_empty() {
                    return RuntimeAction::Reply { reply };
                }
                RuntimeAction::RecordFeedback {
                    entry: FeedbackEntry {
                        id: None,
                        command_line: command,
                        source,
                        score: Some(score),
                        accepted,
                        session_id,
                        timestamp: now_ms,
                    },
                    reply,
                }
            },
            ClientMessage::Record { command, cwd, exit_code, duration_ms, session_id } => {
                let reply = DaemonMessage::Ack { request_id: 0 };
                if exit_code != 0 {
                    return RuntimeAction::Reply { reply };
                }
                RuntimeAction::RecordJournal {
                    entry: JournalEntry {
                        id: None,
                        command_line: command,
                        cwd,
                        exit_code: Some(exit_code),
                        duration_ms: Some(duration_ms),
                        session_id,
                        timestamp: now_ms,
                    },
                    reply,
                }
            },
        }
    }

    fn cycle(&mut self, session_id: String, direction: CycleDirection) -> (r: DaemonMessage)
        requires
            old(self).wf(),
        ensures
            final(self).wf(),
            final(self).providers() == old(self).providers(),
            ({
                let before = old(self).sessions();
                let id = session_id@;
                if before.contains_key(id) {
                    let s = cycled(before[id], direction);
                    &&& r@ == shown(s.request_id, s.selected, s.candidates)
                    &&& final(self).sessions() == before.insert(id, s)
                } else {
                    &&& r@ == shown(0, 0, Seq::empty())
                    &&& final(self).sessions() == before
                }
            }),
    {
        let ghost before = self.sessions();
        let ghost id = session_id@;
        assert(before.contains_key(id) <==> self.suggested@.contains_key(id));
        let next: usize;
        let reply: DaemonMessage;
        match (
            self.suggested.get(session_id.as_str()),
            self.selected.get(session_id.as_str()),
        ) {
            (Some(state), Some(selected)) => {
                assert(before[id].wf());
                next = step(*selected, state.candidates.len(), direction);
                reply = suggestion_message(state.request_id, next, &state.candidates);
            },
            _ => {
                let none: Vec<SuggestionCandidate> = Vec::new();
                return suggestion_message(0, 0, &none);
            },
        }
        self.selected.insert(session_id, next);
        proof {
            let after = self.sessions();
            assert(after =~= before.insert(id, cycled(before[id], direction)));
            assert forall|k: Seq<char>| #[trigger] self.suggested@.contains_key(k) implies
                self.sessions()[k].wf() by {
                if k != id {
                    assert(old(self).suggested@.contains_key(k));
                    assert(old(self).sessions()[k].wf());
                }
            }
        }
        reply
    }

    /// Chooses among what the providers have for a request, remembers the
    /// choice for the session, and answers with the best.
    pub fn complete(
        &mut self,
        request: SuggestionRequest,
        provided: ProvidedCandidates,
    ) -> (r: DaemonMessage)
        requires
            old(self).wf(),
        ensures
            final(self).wf(),
            final(self).providers() == old(self).providers(),
            ({
                let all = broker::gathered(old(self).providers(), request, provided);
                let candidates = broker::chosen(all, old(self).providers().max_candidates);
                let session = Session { request_id: request.request_id, candidates, selected: 0 };
                &&& r@ == shown(request.request_id, 0, candidates)
                &&& final(self).sessions() == old(self).sessions().insert(
                    request.session_id@,
                    session,
                )
            }),
    {
        let ghost before = self.sessions();
        let ghost id = request.session_id@;
        let candidates = self.broker.suggest(&request, provided);
        let reply = suggestion_message(request.request_id, 0, &candidates);
        let ghost session = Session {
            request_id: request.request_id,
            candidates: candidates@,
            selected: 0,
        };
        self.selected.insert(request.session_id.clone(), 0);
        self.suggested.insert(
            request.session_id,
            Suggested { request_id: request.request_id, candidates },
        );
        proof {
            assert(self.sessions() =~= before.insert(id, session));
            assert forall|k: Seq<char>| #[trigger] self.suggested@.contains_key(k) implies
                self.sessions()[k].wf() by {
                if k != id {
                    assert(old(self).suggested@.contains_key(k));
                    assert(old(self).sessions()[k].wf());
                }
            }
        }
        reply
    }

    /// What is to be done about a line that came at `now_ms`.
    pub fn receive(&mut self, line: &str, now_ms: u64) -> (r: RuntimeAction)
        requires
            old(self).wf(),
        ensures
            final(self).wf(),
            final(self).providers() == old(self).providers(),
            match protocol::parse_client(line@) {
                Ok(message) => {
                    &&& r@ == action_for(old(self).sessions(), message, now_ms)
                    &&& final(self).sessions() == sessions_after(old(self).sessions(), message)
                },
                Err(reason) => {
                    &&& r@ == (ActionView::Reply { reply: refusal(reason) })
                    &&& final(self).sessions() == old(self).sessions()
                },
            },
    {
        match protocol::parse_client_message(line) {
            Ok(message) => self.handle_message(message, now_ms),
            Err(e) => {
                let mut message = text::chars_of("parse error: ");
                let reason = e.to_string();
                text::extend_str(&mut message, reason.as_str());
                RuntimeAction::Reply {
                    reply: DaemonMessage::Error {
                        message: text::string_of(&message),
                        request_id: 0,
                    },
                }
            },
        }
    }
}

/// The line that carries an answer.
pub fn answer_line(reply: &DaemonMessage) -> (r: String)
    ensures
        r@ == protocol::encode_daemon(reply@).push('\n'),
{
    let mut line = protocol::encode_daemon_message(reply);
    line.push('\n');
    line
}

/// Where the database is.
pub open spec fn db_path(data_home: Option<Seq<char>>, home: Option<Seq<char>>) -> Seq<char> {
    let data_dir = match data_home {
        Some(dir) => dir,
        None => paths::joined(
            match home {
                Some(h) => h,
                None => "/tmp"@,
            },
            ".local/share"@,
        ),
    };
    paths::joined(data_dir, "shellsuggest/journal.db"@)
}

/// Where the database is, given the values of `XDG_DATA_HOME` and `HOME`.
pub fn default_db_path(data_home: Option<&str>, home: Option<&str>) -> (r: String)
    ensures
        r@ == db_path(ranking::slice_view(data_home), ranking::slice_view(home)),
{
    let data_dir = match data_home {
        Some(dir) => text::copy_str(dir),
        None => {
            let base: &str = match home {
                Some(h) => h,
                None => "/tmp",
            };
            paths::join(base, ".local/share")
        },
    };
    paths::join(data_dir.as_str(), "shellsuggest/journal.db")
}

// --------------------------------------------------------------------- laws

/// The session after so many moves in one direction.
pub open spec fn cycled_times(session: Session, direction: CycleDirection, n: nat) -> Session
    decreases n,
{
    if n == 0 {
        session
    } else {
        cycled(cycled_times(session, direction, (n - 1) as nat), direction)
    }
}

/// Each session that a query process remembers is well formed.
pub proof fn law_sessions_are_well_formed(runtime: QueryRuntime, id: Seq<char>)
    requires
        runtime.wf(),
        runtime.sessions().contains_key(id),
    ensures
        runtime.sessions()[id].wf(),
{
    assert(runtime.suggested@.contains_key(id));
}

/// A move keeps to the candidates that were suggested.
pub proof fn law_cycle_stays_in_range(session: Session, direction: CycleDirection)
    requires
        session.wf(),
    ensures
        cycled(session, direction).wf(),
{
    if session.candidates.len() > 0 {
        lemma_moved(session.selected, session.candidates.len() as int);
    }
}

/// A move back undoes a move on, and the other way round.
pub proof fn law_cycle_back(session: Session)
    requires
        session.wf(),
    ensures
        cycled(cycled(session, CycleDirection::Next), CycleDirection::Prev) == session,
        cycled(cycled(session, CycleDirection::Prev), CycleDirection::Next) == session,
{
    let count = session.candidates.len() as int;
    if count > 0 {
        lemma_moved(session.selected, count);
        lemma_moved(moved(session.selected, count, CycleDirection::Next), count);
        lemma_moved(moved(session.selected, count, CycleDirection::Prev), count);
    }
}

/// As many moves as there are candidates lead back to where they began.
pub proof fn law_cycle_wraps_around(session: Session, direction: CycleDirection)
    requires
        session.wf(),
    ensures
        cycled_times(session, direction, session.candidates.len()) == session,
{
    let count = session.candidates.len() as int;
    if count > 0 {
        lemma_cycled_times(session, direction, session.candidates.len());
        if direction == CycleDirection::Next {
            assert((session.selected + count) % count == session.selected) by (nonlinear_arith)
                requires
                    0 <= session.selected < count,
            ;
        } else {
            assert((session.selected + count * (count - 1)) % count == session.selected)
                by (nonlinear_arith)
                requires
                    0 <= session.selected < count,
            ;
        }
    }
}

proof fn lemma_cycled_times(session: Session, direction: CycleDirection, n: nat)
    requires
        session.wf(),
        session.candidates.len() > 0,
    ensures
        ({
            let count = session.candidates.len() as int;
            let s = cycled_times(session, direction, n);
            &&& s.wf()
            &&& s.request_id == session.request_id
            &&& s.candidates == session.candidates
            &&& s.selected == (if direction == CycleDirection::Next {
                (session.selected + n) % count
            } else {
                (session.selected + n * (count - 1)) % count
            })
        }),
    decreases n,
{
    let count = session.candidates.len() as int;
    if n > 0 {
        let m = (n - 1) as nat;
        lemma_cycled_times(session, direction, m);
        let s = cycled_times(session, direction, m);
        law_cycle_stays_in_range(s, direction);
        if direction == CycleDirection::Next {
            vstd::arithmetic::div_mod::lemma_add_mod_noop(session.selected + m, 1, count);
            vstd::arithmetic::div_mod::lemma_add_mod_noop(s.selected, 1, count);
            vstd::arithmetic::div_mod::lemma_mod_twice(session.selected + m, count);
            assert((session.selected + m) + 1 == session.selected + n);
        } else {
            let k = count - 1;
            vstd::arithmetic::div_mod::lemma_add_mod_noop(session.selected + m * k, k, count);
            vstd::arithmetic::div_mod::lemma_add_mod_noop(s.selected, k, count);
            vstd::arithmetic::div_mod::lemma_mod_twice(session.selected + m * k, count);
            assert(n * k == m * k + k) by (nonlinear_arith)
                requires
                    n == m + 1,
            ;
        }
    } else {
        vstd::arithmetic::div_mod::lemma_small_mod(session.selected as nat, count as nat);
        assert(n * (count - 1) == 0) by (nonlinear_arith)
            requires
                n == 0,
        ;
    }
}

/// What is shown of a session that is well formed is the selected candidate,
/// with its number among all.
pub proof fn law_shown_is_selected(session: Session)
    requires
        session.wf(),
        session.candidates.len() > 0,
        session.candidates.len() <= usize::MAX,
    ensures
        match shown(session.request_id, session.selected, session.candidates) {
            DaemonView::Suggestion { candidate_count, candidate_index, text, .. } => {
                &&& candidate_count == session.candidates.len()
                &&& candidate_index == session.selected
                &&& text == session.candidates[session.selected].text@
            },
            _ => false,
        },
{
}

/// A message touches no session but its own.
pub proof fn law_sessions_are_apart(
    sessions: Map<Seq<char>, Session>,
    message: ClientView,
    other: Seq<char>,
)
    requires
        match message {
            ClientView::Cycle { session_id, .. } => session_id != other,
            _ => true,
        },
    ensures
        sessions_after(sessions, message).contains_key(other) == sessions.contains_key(other),
        sessions.contains_key(other) ==> sessions_after(sessions, message)[other]
            == sessions[other],
{
}

/// A command that failed is not recorded.
pub proof fn law_failures_are_not_recorded(
    sessions: Map<Seq<char>, Session>,
    message: ClientView,
    now_ms: u64,
)
    ensures
        match message {
            ClientView::Record { exit_code, .. } => action_for(sessions, message, now_ms)
                is RecordJournal <==> exit_code == 0,
            _ => action_for(sessions, message, now_ms) !is RecordJournal,
        },
{
}

/// Each answer is one line that the shell reads back.
pub proof fn law_answers_read_back(reply: DaemonView)
    requires
        protocol::daemon_wf(reply),
    ensures
        ({
            let line = protocol::encode_daemon(reply).push('\n');
            &&& text::lines(line) == seq![protocol::encode_daemon(reply)]
            &&& protocol::parse_daemon(text::lines(line)[0]) == Ok::<DaemonView, Seq<char>>(reply)
        }),
{
    let frame = protocol::encode_daemon(reply);
    let line = frame.push('\n');
    protocol::law_daemon_frame_is_one_line(reply);
    protocol::law_daemon_roundtrip(reply);
    text::lemma_first_at(line, '\n');
    let n = text::first_at(line, '\n');
    if n < frame.len() {
        assert(frame[n] == '\n');
        assert(frame.contains(frame[n]));
    }
    assert(line[frame.len() as int] == '\n');
    assert(line.take(n) =~= frame);
    if frame.len() > 0 && frame.last() == '\r' {
        assert(frame.contains(frame[frame.len() - 1]));
    }
    assert(line.skip(n + 1) =~= Seq::<char>::empty());
    assert(text::lines(line.skip(n + 1)) =~= Seq::<Seq<char>>::empty());
    assert(text::chomp(frame) == frame);
    assert(text::lines(line) =~= seq![frame]);
}

/// The scores of the candidates are written as numbers.
pub open spec fn scores_are_written(candidates: Seq<SuggestionCandidate>) -> bool {
    forall|i: int|
        0 <= i < candidates.len() ==> number::is_float_literal(
            (#[trigger] candidates[i]).score.text@,
        )
}

/// What is shown can be written to a line and read back.
pub proof fn law_shown_can_be_written(
    request_id: u64,
    selected: int,
    candidates: Seq<SuggestionCandidate>,
)
    requires
        scores_are_written(candidates),
    ensures
        protocol::daemon_wf(shown(request_id, selected, candidates)),
{
    let zero = "0"@;
    reveal_strlit("0");
    assert(zero.len() == 1 && zero[0] == '0');
    let t = number::ascii_lowered(zero);
    assert(number::unsigned(zero) =~= zero);
    assert(t =~= zero);
    text::lemma_first_at(t, 'e');
    assert(text::first_at(t, 'e') == 1) by {
        let n = text::first_at(t, 'e');
        if n < 1 {
            assert(t[n] == 'e');
        }
    }
    assert(t.take(1) =~= zero);
    text::lemma_first_at(zero, '.');
    assert(text::first_at(zero, '.') == 1) by {
        let n = text::first_at(zero, '.');
        if n < 1 {
            assert(zero[n] == '.');
        }
    }
    assert(number::all_digits(zero));
    assert(number::is_mantissa(t.take(1)));
    assert(number::is_plain_float(zero));
}

/// Every answer to a message can be written to a line and read back.
pub proof fn law_replies_can_be_written(
    sessions: Map<Seq<char>, Session>,
    message: ClientView,
    now_ms: u64,
)
    requires
        forall|id: Seq<char>| #[trigger]
            sessions.contains_key(id) ==> scores_are_written(sessions[id].candidates),
    ensures
        match action_for(sessions, message, now_ms) {
            ActionView::Reply { reply } => protocol::daemon_wf(reply),
            ActionView::RecordFeedback { reply, .. } => protocol::daemon_wf(reply),
            ActionView::RecordJournal { reply, .. } => protocol::daemon_wf(reply),
            ActionView::Suggest { .. } => true,
        },
{
    law_shown_can_be_written(0, 0, Seq::empty());
    if let ClientView::Cycle { session_id, direction } = message {
        if sessions.contains_key(session_id) {
            let s = cycled(sessions[session_id], direction);
            law_shown_can_be_written(s.request_id, s.selected, s.candidates);
        }
    }
}

/// What is shown is the selected candidate whole: where it comes from, its score,
/// its text, and the request that it answers. Where nothing was suggested,
/// nothing is shown, with a score of zero.
pub proof fn law_shown_whole(
    request_id: u64,
    selected: int,
    candidates: Seq<SuggestionCandidate>,
)
    requires
        candidates.len() <= usize::MAX,
    ensures
        match shown(request_id, selected, candidates) {
            DaemonView::Suggestion {
                request_id: id,
                candidate_count,
                candidate_index,
                source,
                score,
                text,
            } => {
                &&& id == request_id
                &&& 0 <= selected < candidates.len() ==> {
                    &&& candidate_count == candidates.len()
                    &&& candidate_index == selected
                    &&& source == candidates[selected].source@
                    &&& score == candidates[selected].score.text@
                    &&& text == candidates[selected].text@
                }
                &&& candidates.len() == 0 ==> {
                    &&& candidate_count == 0
                    &&& candidate_index == 0
                    &&& source.len() == 0
                    &&& score == seq!['0']
                    &&& text.len() == 0
                }
            },
            _ => false,
        },
{
    reveal_strlit("0");
    assert("0"@ =~= seq!['0']);
}

/// A request for a suggestion is passed on as it came, with the time.
pub proof fn law_request_is_passed_on(
    sessions: Map<Seq<char>, Session>,
    message: ClientView,
    now_ms: u64,
)
    ensures
        message is Suggest <==> action_for(sessions, message, now_ms) is Suggest,
        match (message, action_for(sessions, message, now_ms)) {
            (
                ClientView::Suggest {
                    request_id,
                    buffer,
                    cursor,
                    cwd,
                    session_id,
                    last_command,
                },
                ActionView::Suggest {
                    request_id: id,
                    buffer: b,
                    cursor: c,
                    cwd: d,
                    session_id: s,
                    last_command: l,
                    timestamp_ms,
                },
            ) => {
                &&& id == request_id
                &&& b == buffer
                &&& c == cursor
                &&& d == cwd
                &&& s == session_id
                &&& l == last_command
                &&& timestamp_ms == now_ms
            },
            _ => true,
        },
{
}

/// A command that ended well is recorded as it came, with the time, and
/// whatever is recorded is acknowledged; so is what is not.
pub proof fn law_command_is_recorded(
    sessions: Map<Seq<char>, Session>,
    message: ClientView,
    now_ms: u64,
)
    ensures
        match (message, action_for(sessions, message, now_ms)) {
            (
                ClientView::Record { command, cwd, exit_code, duration_ms, session_id },
                ActionView::RecordJournal {
                    id,
                    command_line,
                    cwd: d,
                    exit_code: e,
                    duration_ms: t,
                    session_id: s,
                    timestamp,
                    reply,
                },
            ) => {
                &&& exit_code == 0
                &&& id is None
                &&& command_line == command
                &&& d == cwd
                &&& e == Some(0i32)
                &&& t == Some(duration_ms)
                &&& s == session_id
                &&& timestamp == now_ms
                &&& reply == (DaemonView::Ack { request_id: 0 })
            },
            (ClientView::Record { exit_code, .. }, action) => {
                &&& exit_code != 0
                &&& action == (ActionView::Reply { reply: DaemonView::Ack { request_id: 0 } })
            },
            _ => true,
        },
{
}

/// What became of a suggestion is recorded as it came, with the time, where it
/// names a command and a source, and it is acknowledged in any case.
pub proof fn law_feedback_is_recorded(
    sessions: Map<Seq<char>, Session>,
    message: ClientView,
    now_ms: u64,
)
    ensures
        match (message, action_for(sessions, message, now_ms)) {
            (
                ClientView::Feedback { command, source, score, accepted, session_id },
                ActionView::RecordFeedback {
                    id,
                    command_line,
                    source: f,
                    score: n,
                    accepted: a,
                    session_id: s,
                    timestamp,
                    reply,
                },
            ) => {
                &&& command.len() > 0 && source.len() > 0
                &&& id is None
                &&& command_line == command
                &&& f == source
                &&& n == Some(score)
                &&& a == accepted
                &&& s == session_id
                &&& timestamp == now_ms
                &&& reply == (DaemonView::Ack { request_id: 0 })
            },
            (ClientView::Feedback { command, source, .. }, action) => {
                &&& command.len() == 0 || source.len() == 0
                &&& action == (ActionView::Reply { reply: DaemonView::Ack { request_id: 0 } })
            },
            (_, action) => action !is RecordFeedback,
        },
{
}

/// One step forward shows the candidate behind the one that was shown, or the
/// first behind the last; one step back the one before it, or the last before
/// the first. The rest of the session stays.
pub proof fn law_cycle_by_one(session: Session)
    requires
        session.wf(),
    ensures
        ({
            let n = session.candidates.len();
            let on = cycled(session, CycleDirection::Next);
            let back = cycled(session, CycleDirection::Prev);
            &&& on.candidates == session.candidates && back.candidates == session.candidates
            &&& on.request_id == session.request_id && back.request_id == session.request_id
            &&& n == 0 ==> on.selected == 0 && back.selected == 0
            &&& n > 0 && session.selected + 1 < n ==> on.selected == session.selected + 1
            &&& n > 0 && session.selected + 1 == n ==> on.selected == 0
            &&& n > 0 && session.selected > 0 ==> back.selected == session.selected - 1
            &&& n > 0 && session.selected == 0 ==> back.selected == n - 1
        }),
{
    let n = session.candidates.len() as int;
    let s = session.selected;
    if n > 0 {
        assert((s + 1) % n == (if s + 1 == n {
            0
        } else {
            s + 1
        })) by (nonlinear_arith)
            requires
                0 <= s < n,
        ;
        assert((s + n - 1) % n == (if s == 0 {
            n - 1
        } else {
            s - 1
        })) by (nonlinear_arith)
            requires
                0 <= s < n,
        ;
    }
}

/// A step through what was suggested is answered with what it leads to and is
/// remembered; in a session in which nothing was suggested nothing is shown.
/// Nothing else moves a session.
pub proof fn law_cycle_is_answered(
    sessions: Map<Seq<char>, Session>,
    message: ClientView,
    now_ms: u64,
)
    ensures
        match message {
            ClientView::Cycle { session_id, direction } => {
                let after = sessions_after(sessions, message);
                let action = action_for(sessions, message, now_ms);
                &&& after.dom() == sessions.dom()
                &&& sessions.contains_key(session_id) ==> {
                    let s = after[session_id];
                    &&& s == cycled(sessions[session_id], direction)
                    &&& action == (ActionView::Reply {
                        reply: shown(s.request_id, s.selected, s.candidates),
                    })
                }
                &&& !sessions.contains_key(session_id) ==> {
                    &&& after == sessions
                    &&& action == (ActionView::Reply { reply: shown(0, 0, Seq::empty()) })
                }
            },
            _ => sessions_after(sessions, message) == sessions,
        },
{
    if let ClientView::Cycle { session_id, direction } = message {
        if sessions.contains_key(session_id) {
            assert(sessions_after(sessions, message).dom() =~= sessions.dom());
        }
    }
}

/// A line that is no message is answered with the reason, behind a few words
/// that say so.
pub proof fn law_refusal_names_reason(reason: Seq<char>)
    ensures
        match refusal(reason) {
            DaemonView::Error { message, request_id } => {
                &&& request_id == 0
                &&& message == "parse error: "@ + reason
            },
            _ => false,
        },
{
}

/// The database is below the directory for data, else below `.local/share` in the
/// home directory, else in that of `/tmp`.
pub proof fn law_database_is_below(dir: Seq<char>, home: Option<Seq<char>>)
    requires
        dir.len() > 0,
        dir.last() != '/',
    ensures
        db_path(Some(dir), home) == dir + "/shellsuggest/journal.db"@,
        db_path(None, Some(dir)) == dir + "/.local/share/shellsuggest/journal.db"@,
        db_path(None, None) == "/tmp/.local/share/shellsuggest/journal.db"@,
{
    reveal_strlit("shellsuggest/journal.db");
    reveal_strlit("/shellsuggest/journal.db");
    reveal_strlit(".local/share");
    reveal_strlit("/.local/share/shellsuggest/journal.db");
    reveal_strlit("/tmp");
    reveal_strlit("/tmp/.local/share/shellsuggest/journal.db");
    assert(db_path(Some(dir), home) =~= dir + "/shellsuggest/journal.db"@);
    assert(db_path(None, Some(dir)) =~= dir + "/.local/share/shellsuggest/journal.db"@);
    assert(db_path(None, None) =~= "/tmp/.local/share/shellsuggest/journal.db"@);
}

} // verus!
