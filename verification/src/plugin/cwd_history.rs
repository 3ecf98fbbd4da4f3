//! Suggestions from what was run in this directory and the one above it.
use vstd::prelude::*;
use crate::db::models::{RankedCommand, TransitionCount};
use crate::db::store::{CwdQuery, TransitionQuery};
use crate::distinct;
use crate::distinct::Labelled;
use crate::paths;
use crate::plugin;
use crate::plugin::{InlineProvider, ProposalView, Proposals, SuggestionKind, SuggestionRequest};
use crate::ranking;
use crate::ranking::{PathKind, RankingFeatures, Share};
use crate::text;

verus! {

/// How many commands of the current directory are asked for.
pub const CWD_LIMIT: usize = 20;

/// How many commands of the parent directory are asked for.
pub const PARENT_LIMIT: usize = 10;

/// How many transitions are asked for.
pub const TRANSITION_LIMIT: usize = 5;

/// Suggests the latest commands of the current directory and of its parent.
#[derive(Debug, Clone, Copy)]
pub struct CwdHistoryPlugin {}

/// A command that was run here or in the parent directory.
#[derive(Debug, Clone)]
pub struct NearbyCommand {
    pub row: RankedCommand,
    pub nearness: Share,
}

impl Labelled for NearbyCommand {
    open spec fn label(self) -> Seq<char> {
        self.row.command_line@
    }

    fn label_text(&self) -> (r: String) {
        self.row.command_line.clone()
    }
}

/// The commands that followed the last one and begin with a prefix.
#[derive(Debug, Clone)]
pub struct TransitionReply {
    pub prefix: String,
    pub rows: Vec<TransitionCount>,
}

/// What there is to know about the commands nearby: the commands themselves,
/// what stands at the path that each of them names, and what followed the last
/// command.
#[derive(Debug, Clone)]
pub struct CwdHistoryReply {
    pub entries: Vec<NearbyCommand>,
    pub home: Option<String>,
    pub found: Vec<Option<PathKind>>,
    pub transitions: Vec<TransitionReply>,
}

/// The request is to change the directory.
pub open spec fn is_cd(req: SuggestionRequest) -> bool {
    ranking::first_word(req.buffer@) == Some("cd"@)
}

/// The command changes the directory.
pub open spec fn changes_directory(row: RankedCommand) -> bool {
    ranking::first_word(row.command_line@) == Some("cd"@)
}

/// The test for commands that do not change the directory.
pub open spec fn stays() -> spec_fn(RankedCommand) -> bool {
    |row: RankedCommand| !changes_directory(row)
}

/// Commands at one nearness.
pub open spec fn at(rows: Seq<RankedCommand>, nearness: Share) -> Seq<NearbyCommand> {
    rows.map_values(|row: RankedCommand| NearbyCommand { row, nearness })
}

/// The commands of the current directory, then those of the parent that do not
/// change the directory, each once.
pub open spec fn nearby_commands(
    cwd_rows: Seq<RankedCommand>,
    parent_rows: Seq<RankedCommand>,
) -> Seq<NearbyCommand> {
    distinct::first_of_each(
        at(cwd_rows, Share::hundredths(100)) + at(
            parent_rows.filter(stays()),
            Share::hundredths(50),
        ),
    )
}

/// The word by which the transitions to a command are asked for.
pub open spec fn transition_word(command_line: Seq<char>) -> Seq<char> {
    match ranking::first_word(command_line) {
        Some(word) => word,
        None => Seq::empty(),
    }
}

/// The words of the commands, each once.
pub open spec fn transition_words(entries: Seq<NearbyCommand>) -> Seq<Seq<char>>
    decreases entries.len(),
{
    if entries.len() == 0 {
        Seq::empty()
    } else {
        let rest = transition_words(entries.drop_last());
        let word = transition_word(entries.last().row.command_line@);
        if rest.contains(word) {
            rest
        } else {
            rest.push(word)
        }
    }
}

/// The sum of the counts.
pub open spec fn total(rows: Seq<TransitionCount>) -> nat
    decreases rows.len(),
{
    if rows.len() == 0 {
        0
    } else {
        total(rows.drop_last()) + rows.last().count as nat
    }
}

/// The count of the first row with the command.
pub open spec fn count_for(rows: Seq<TransitionCount>, command_line: Seq<char>) -> Option<u64>
    decreases rows.len(),
{
    if rows.len() == 0 {
        None
    } else if rows[0].command_line@ == command_line {
        Some(rows[0].count)
    } else {
        count_for(rows.skip(1), command_line)
    }
}

/// The rows of the first reply for the prefix.
pub open spec fn rows_for(replies: Seq<TransitionReply>, prefix: Seq<char>) -> Seq<TransitionCount>
    decreases replies.len(),
{
    if replies.len() == 0 {
        Seq::empty()
    } else if replies[0].prefix@ == prefix {
        replies[0].rows@
    } else {
        rows_for(replies.skip(1), prefix)
    }
}

/// How often a command came next, among all that did.
pub open spec fn share_of(rows: Seq<TransitionCount>, command_line: Seq<char>) -> Share {
    if total(rows) == 0 {
        Share::hundredths(0)
    } else {
        match count_for(rows, command_line) {
            Some(count) => Share { part: count, whole: total(rows) as u64 },
            None => Share::hundredths(0),
        }
    }
}

/// How often a command followed the last one.
pub open spec fn transition_share(
    req: SuggestionRequest,
    replies: Seq<TransitionReply>,
    command_line: Seq<char>,
) -> Share {
    match req.last_command {
        Some(_) => share_of(rows_for(replies, transition_word(command_line)), command_line),
        None => Share::hundredths(0),
    }
}

/// What was found for the `i`th command.
pub open spec fn found_at(found: Seq<Option<PathKind>>, i: int) -> Option<PathKind> {
    if i < found.len() {
        found[i]
    } else {
        None
    }
}

/// The proposal of the `i`th command.
pub open spec fn nearby_proposal(
    req: SuggestionRequest,
    reply: CwdHistoryReply,
    i: int,
) -> ProposalView {
    let entry = reply.entries@[i];
    let command_line = entry.row.command_line@;
    ProposalView {
        text: command_line,
        source: "cwd_history"@,
        kind: SuggestionKind::Command,
        features: RankingFeatures {
            prefix_exactness: ranking::typed_share(command_line, req.buffer@),
            cwd_similarity: entry.nearness,
            path_exists: ranking::path_share(
                command_line,
                req.cwd@,
                text::option_view(reply.home),
                found_at(reply.found@, i),
            ),
            recency: ranking::age(entry.row.timestamp, req.timestamp_ms),
            frequency: ranking::run_share(entry.row.frequency),
            last_command_transition: transition_share(req, reply.transitions@, command_line),
            success_bonus: Share::hundredths(100),
        },
    }
}

fn starts_with_cd(command_line: &str) -> (r: bool)
    ensures
        r == (ranking::first_word(command_line@) == Some("cd"@)),
{
    match ranking::extract_command(command_line) {
        Some(cmd) => text::eq_str(cmd, "cd"),
        None => false,
    }
}

fn word_of(command_line: &str) -> (r: String)
    ensures
        r@ == transition_word(command_line@),
{
    match ranking::extract_command(command_line) {
        Some(word) => text::copy_str(word),
        None => String::new(),
    }
}

/// The sum of the counts, if it is small enough to be held.
pub fn total_count(rows: &Vec<TransitionCount>) -> (r: Option<u64>)
    ensures
        match r {
            Some(n) => n == total(rows@),
            None => total(rows@) > u64::MAX,
        },
{
    let mut sum: u64 = 0;
    let mut i: usize = 0;
    while i < rows.len()
        invariant
            i <= rows@.len(),
            sum == total(rows@.take(i as int)),
        decreases rows@.len() - i,
    {
        proof {
            assert(rows@.take(i + 1).drop_last() =~= rows@.take(i as int));
        }
        match sum.checked_add(rows[i].count) {
            Some(n) => {
                sum = n;
            },
            None => {
                proof {
                    lemma_total_grows(rows@, i + 1);
                }
                return None;
            },
        }
        i += 1;
    }
    assert(rows@.take(i as int) =~= rows@);
    Some(sum)
}

proof fn lemma_total_grows(rows: Seq<TransitionCount>, n: int)
    requires
        0 <= n <= rows.len(),
    ensures
        total(rows.take(n)) <= total(rows),
    decreases rows.len() - n,
{
    if n < rows.len() {
        lemma_total_grows(rows, n + 1);
        assert(rows.take(n + 1).drop_last() =~= rows.take(n));
    } else {
        assert(rows.take(n) =~= rows);
    }
}

fn count_of(rows: &Vec<TransitionCount>, command_line: &str) -> (r: Option<u64>)
    ensures
        r == count_for(rows@, command_line@),
{
    let mut i: usize = 0;
    assert(rows@.skip(0) =~= rows@);
    while i < rows.len()
        invariant
            i <= rows@.len(),
            count_for(rows@, command_line@) == count_for(rows@.skip(i as int), command_line@),
        decreases rows@.len() - i,
    {
        if text::eq_str(rows[i].command_line.as_str(), command_line) {
            return Some(rows[i].count);
        }
        assert(rows@.skip(i as int).skip(1) =~= rows@.skip(i + 1));
        i += 1;
    }
    None
}

/// How often a command came next, among all that did.
fn share(rows: &Vec<TransitionCount>, command_line: &str) -> (r: Share)
    requires
        total(rows@) <= u64::MAX,
    ensures
        r == share_of(rows@, command_line@),
{
    match total_count(rows) {
        Some(n) => {
            if n == 0 {
                return Share::percent(0);
            }
            match count_of(rows, command_line) {
                Some(count) => Share { part: count, whole: n },
                None => Share::percent(0),
            }
        },
        None => Share::percent(0),
    }
}

impl CwdHistoryPlugin {
    pub fn new() -> Self {
        CwdHistoryPlugin {  }
    }

    /// What to ask for the current directory.
    pub fn cwd_query(&self, req: &SuggestionRequest) -> (r: CwdQuery)
        ensures
            r.asks(req.cwd@, req.buffer@, CWD_LIMIT as int),
            r.commands.limit == 20,
    {
        CwdQuery::new(req.cwd.as_str(), req.buffer.as_str(), CWD_LIMIT)
    }

    /// What to ask for the parent directory `parent`. To change the directory,
    /// only the current one has a say.
    pub fn query_above(&self, req: &SuggestionRequest, parent: Option<&str>) -> (r: Option<
        CwdQuery,
    >)
        ensures
            match r {
                Some(q) => !is_cd(*req) && parent is Some && q.asks(
                    parent->0@,
                    req.buffer@,
                    PARENT_LIMIT as int,
                ) && q.commands.limit == 10,
                None => is_cd(*req) || parent is None,
            },
    {
        if starts_with_cd(req.buffer.as_str()) {
            return None;
        }
        match parent {
            Some(dir) => Some(CwdQuery::new(dir, req.buffer.as_str(), PARENT_LIMIT)),
            None => None,
        }
    }

    /// What to ask for the parent of the current directory.
    pub fn parent_query(&self, req: &SuggestionRequest) -> (r: Option<CwdQuery>)
        ensures
            match r {
                Some(q) => !is_cd(*req) && paths::parent_of(req.cwd@) is Some && q.asks(
                    paths::parent_of(req.cwd@)->0,
                    req.buffer@,
                    PARENT_LIMIT as int,
                ) && q.commands.limit == 10,
                None => is_cd(*req) || paths::parent_of(req.cwd@) is None,
            },
    {
        match paths::parent(req.cwd.as_str()) {
            Some(dir) => self.query_above(req, Some(dir.as_str())),
            None => self.query_above(req, None),
        }
    }

    /// The commands to suggest, given the replies for the current directory and
    /// its parent.
    pub fn nearby(
        &self,
        cwd_rows: Vec<RankedCommand>,
        parent_rows: Vec<RankedCommand>,
    ) -> (r: Vec<NearbyCommand>)
        ensures
            r@ == nearby_commands(cwd_rows@, parent_rows@),
    {
        let ghost here = cwd_rows@;
        let ghost above = parent_rows@;
        let ghost staying = stays();
        let mut all: Vec<NearbyCommand> = Vec::new();
        for row in it: cwd_rows
            invariant
                it.seq() == here,
                all@ == at(here.take(it.index() as int), Share::hundredths(100)),
        {
            let ghost n = it.index() as int;
            assert(here.take(n + 1) =~= here.take(n).push(row));
            assert(at(here.take(n + 1), Share::hundredths(100)) =~= at(
                here.take(n),
                Share::hundredths(100),
            ).push(NearbyCommand { row, nearness: Share::hundredths(100) }));
            all.push(NearbyCommand { row, nearness: Share::percent(100) });
        }
        assert(here.take(here.len() as int) =~= here);
        let ghost first = all@;
        proof {
            reveal(Seq::filter);
            assert(at(above.take(0).filter(staying), Share::hundredths(50))
                =~= Seq::<NearbyCommand>::empty());
        }
        for row in it: parent_rows
            invariant
                it.seq() == above,
                staying == stays(),
                all@ == first + at(
                    above.take(it.index() as int).filter(staying),
                    Share::hundredths(50),
                ),
        {
            proof {
                reveal(Seq::filter);
                let n = it.index() as int;
                let kept = above.take(n).filter(staying);
                assert(above.take(n + 1).drop_last() =~= above.take(n));
                assert(above.take(n + 1).last() == row);
                assert(at(kept.push(row), Share::hundredths(50)) =~= at(
                    kept,
                    Share::hundredths(50),
                ).push(NearbyCommand { row, nearness: Share::hundredths(50) }));
                assert((first + at(kept, Share::hundredths(50))).push(
                    NearbyCommand { row, nearness: Share::hundredths(50) },
                ) =~= first + at(kept.push(row), Share::hundredths(50)));
            }
            if !starts_with_cd(row.command_line.as_str()) {
                all.push(NearbyCommand { row, nearness: Share::percent(50) });
            }
        }
        assert(above.take(above.len() as int) =~= above);
        distinct::without_repeats(all)
    }

    /// The path to look at for each command, if it names one.
    pub fn paths_to_check(
        &self,
        req: &SuggestionRequest,
        entries: &Vec<NearbyCommand>,
        home: Option<&str>,
    ) -> (r: Vec<Option<String>>)
        ensures
            r@.len() == entries@.len(),
            forall|i: int|
                0 <= i < r@.len() ==> text::option_view(#[trigger] r@[i]) == ranking::named_path(
                    entries@[i].row.command_line@,
                    req.cwd@,
                    ranking::slice_view(home),
                ),
    {
        let mut out: Vec<Option<String>> = Vec::new();
        let mut i: usize = 0;
        while i < entries.len()
            invariant
                i <= entries@.len(),
                out@.len() == i,
                forall|k: int|
                    0 <= k < i ==> text::option_view(#[trigger] out@[k]) == ranking::named_path(
                        entries@[k].row.command_line@,
                        req.cwd@,
                        ranking::slice_view(home),
                    ),
            decreases entries@.len() - i,
        {
            let path = ranking::path_to_check(
                entries[i].row.command_line.as_str(),
                req.cwd.as_str(),
                home,
            );
            out.push(path);
            i += 1;
        }
        out
    }

    /// What to ask about the commands that followed the last one: once for each
    /// word with which a command begins.
    pub fn transition_queries(
        &self,
        req: &SuggestionRequest,
        entries: &Vec<NearbyCommand>,
    ) -> (r: Vec<TransitionQuery>)
        ensures
            match req.last_command {
                Some(prev) => {
                    let words = transition_words(entries@);
                    &&& r@.len() == words.len()
                    &&& forall|i: int|
                        0 <= i < words.len() ==> (#[trigger] r@[i]).asks(
                            prev@,
                            words[i],
                            TRANSITION_LIMIT as int,
                        ) && r@[i].commands.limit == 5
                },
                None => r@.len() == 0,
            },
    {
        let mut out: Vec<TransitionQuery> = Vec::new();
        let prev: &String = match &req.last_command {
            Some(prev) => prev,
            None => return out,
        };
        let mut words: Vec<String> = Vec::new();
        let mut i: usize = 0;
        assert(text::string_views(words@) =~= transition_words(entries@.take(0)));
        while i < entries.len()
            invariant
                i <= entries@.len(),
                text::string_views(words@) == transition_words(entries@.take(i as int)),
                out@.len() == words@.len(),
                forall|k: int|
                    0 <= k < words@.len() ==> (#[trigger] out@[k]).asks(
                        prev@,
                        words@[k]@,
                        TRANSITION_LIMIT as int,
                    ),
            decreases entries@.len() - i,
        {
            let word = word_of(entries[i].row.command_line.as_str());
            assert(entries@.take(i + 1).drop_last() =~= entries@.take(i as int));
            if !holds(&words, word.as_str()) {
                out.push(
                    TransitionQuery::new(prev.as_str(), word.as_str(), TRANSITION_LIMIT),
                );
                assert(text::string_views(words@.push(word)) =~= text::string_views(words@).push(
                    word@,
                ));
                words.push(word);
            }
            i += 1;
        }
        assert(entries@.take(i as int) =~= entries@);
        assert forall|k: int| 0 <= k < words@.len() implies (#[trigger] out@[k]).asks(
            prev@,
            transition_words(entries@)[k],
            TRANSITION_LIMIT as int,
        ) by {
            assert(text::string_views(words@)[k] == words@[k]@);
        }
        out
    }

    /// How often a command followed the last one.
    fn transition(
        &self,
        req: &SuggestionRequest,
        replies: &Vec<TransitionReply>,
        command_line: &str,
    ) -> (r: Share)
        requires
            forall|k: int|
                0 <= k < replies@.len() ==> total((#[trigger] replies@[k]).rows@) <= u64::MAX,
        ensures
            r == transition_share(*req, replies@, command_line@),
    {
        if req.last_command.is_none() {
            return Share::percent(0);
        }
        let word = word_of(command_line);
        let mut i: usize = 0;
        assert(replies@.skip(0) =~= replies@);
        while i < replies.len()
            invariant
                i <= replies@.len(),
                req.last_command is Some,
                word@ == transition_word(command_line@),
                forall|k: int|
                    0 <= k < replies@.len() ==> total((#[trigger] replies@[k]).rows@) <= u64::MAX,
                rows_for(replies@, word@) == rows_for(replies@.skip(i as int), word@),
            decreases replies@.len() - i,
        {
            if text::eq_str(replies[i].prefix.as_str(), word.as_str()) {
                return share(&replies[i].rows, command_line);
            }
            assert(replies@.skip(i as int).skip(1) =~= replies@.skip(i + 1));
            i += 1;
        }
        Share::percent(0)
    }
}

fn holds(words: &Vec<String>, word: &str) -> (r: bool)
    ensures
        r == text::string_views(words@).contains(word@),
{
    let mut i: usize = 0;
    while i < words.len()
        invariant
            i <= words@.len(),
            forall|k: int| 0 <= k < i ==> (#[trigger] words@[k])@ != word@,
        decreases words@.len() - i,
    {
        if text::eq_str(words[i].as_str(), word) {
            assert(text::string_views(words@)[i as int] == word@);
            return true;
        }
        i += 1;
    }
    assert forall|k: int| 0 <= k < words@.len() implies text::string_views(words@)[k] != word@ by {
        assert(words@[k]@ != word@);
    }
    false
}

impl InlineProvider for CwdHistoryPlugin {
    type Reply = CwdHistoryReply;

    open spec fn known_as(&self) -> Seq<char> {
        "cwd_history"@
    }

    open spec fn handles(&self, req: SuggestionRequest) -> bool {
        req.buffer@.len() > 0
    }

    open spec fn answerable(&self, reply: CwdHistoryReply) -> bool {
        forall|k: int|
            0 <= k < reply.transitions@.len() ==> total((#[trigger] reply.transitions@[k]).rows@)
                <= u64::MAX
    }

    open spec fn proposed(&self, req: SuggestionRequest, reply: CwdHistoryReply) -> Seq<
        ProposalView,
    > {
        Seq::new(reply.entries@.len(), |i: int| nearby_proposal(req, reply, i))
    }

    fn name(&self) -> (r: &'static str) {
        "cwd_history"
    }

    fn supports(&self, req: &SuggestionRequest) -> (r: bool) {
        !req.buffer.as_str().is_empty()
    }

    fn suggest(&self, req: &SuggestionRequest, reply: CwdHistoryReply) -> (r: Proposals) {
        let mut out = Proposals::new();
        assert(out@ =~= Seq::<ProposalView>::empty());
        let mut i: usize = 0;
        while i < reply.entries.len()
            invariant
                i <= reply.entries@.len(),
                self.answerable(reply),
                out@ == Seq::new(i as nat, |k: int| nearby_proposal(*req, reply, k)),
            decreases reply.entries@.len() - i,
        {
            let entry = &reply.entries[i];
            let command_line: &str = entry.row.command_line.as_str();
            let found: Option<PathKind> = if i < reply.found.len() {
                reply.found[i]
            } else {
                None
            };
            let home: Option<&str> = match &reply.home {
                Some(h) => Some(h.as_str()),
                None => None,
            };
            let features = RankingFeatures {
                prefix_exactness: ranking::prefix_exactness(command_line, req.buffer.as_str()),
                cwd_similarity: entry.nearness,
                path_exists: ranking::path_exists_score(
                    command_line,
                    req.cwd.as_str(),
                    home,
                    found,
                ),
                recency: ranking::recency(entry.row.timestamp, req.timestamp_ms),
                frequency: ranking::frequency(entry.row.frequency),
                last_command_transition: self.transition(req, &reply.transitions, command_line),
                success_bonus: Share::percent(100),
            };
            out.propose(
                text::copy_str(command_line),
                "cwd_history",
                SuggestionKind::Command,
                features,
            );
            assert(out@ =~= Seq::new((i + 1) as nat, |k: int| nearby_proposal(*req, reply, k)));
            i += 1;
        }
        out
    }
}

/// No command is suggested twice.
pub proof fn law_nearby_commands_differ(
    cwd_rows: Seq<RankedCommand>,
    parent_rows: Seq<RankedCommand>,
)
    ensures
        ({
            let r = nearby_commands(cwd_rows, parent_rows);
            forall|i: int, j: int|
                0 <= i < j < r.len() ==> (#[trigger] r[i]).row.command_line@ != (
                #[trigger] r[j]).row.command_line@
        }),
{
    let all = at(cwd_rows, Share::hundredths(100)) + at(
        parent_rows.filter(stays()),
        Share::hundredths(50),
    );
    distinct::law_no_repeats(all);
    let r = nearby_commands(cwd_rows, parent_rows);
    assert forall|i: int, j: int| 0 <= i < j < r.len() implies (
    #[trigger] r[i]).row.command_line@ != (#[trigger] r[j]).row.command_line@ by {
        assert(r[i].label() != r[j].label());
    }
}

/// A command of the current directory is suggested as such, and what comes
/// from the parent directory does not change the directory.
pub proof fn law_here_beats_above(cwd_rows: Seq<RankedCommand>, parent_rows: Seq<RankedCommand>)
    ensures
        ({
            let r = nearby_commands(cwd_rows, parent_rows);
            forall|i: int|
                0 <= i < r.len() ==> {
                    ||| (#[trigger] r[i]).nearness == Share::hundredths(100) && cwd_rows.contains(
                        r[i].row,
                    )
                    ||| r[i].nearness == Share::hundredths(50) && parent_rows.contains(r[i].row)
                        && !changes_directory(r[i].row) && forall|k: int|
                        0 <= k < cwd_rows.len() ==> (#[trigger] cwd_rows[k]).command_line@
                            != r[i].row.command_line@
                }
        }),
{
    let kept = parent_rows.filter(stays());
    let here = at(cwd_rows, Share::hundredths(100));
    let all = here + at(kept, Share::hundredths(50));
    let r = nearby_commands(cwd_rows, parent_rows);
    assert forall|i: int| 0 <= i < r.len() implies {
        ||| (#[trigger] r[i]).nearness == Share::hundredths(100) && cwd_rows.contains(r[i].row)
        ||| r[i].nearness == Share::hundredths(50) && parent_rows.contains(r[i].row)
            && !changes_directory(r[i].row) && forall|k: int|
            0 <= k < cwd_rows.len() ==> (#[trigger] cwd_rows[k]).command_line@
                != r[i].row.command_line@
    } by {
        distinct::law_result_is_first(all, i);
        let k = choose|k: int| #[trigger] distinct::is_first(all, k) && all[k] == r[i];
        if k < here.len() {
            assert(cwd_rows[k] == r[i].row);
        } else {
            assert(kept[k - here.len()] == r[i].row);
            parent_rows.lemma_filter_pred(stays(), k - here.len());
            assert(kept.contains(r[i].row));
            parent_rows.lemma_filter_contains_rev(stays(), r[i].row);
            assert forall|j: int| 0 <= j < cwd_rows.len() implies (
            #[trigger] cwd_rows[j]).command_line@ != r[i].row.command_line@ by {
                assert(all[j].label() != all[k].label());
            }
        }
    }
}

/// A share of the transitions lies between nothing and all.
pub proof fn law_transition_share_valid(rows: Seq<TransitionCount>, command_line: Seq<char>)
    requires
        total(rows) <= u64::MAX,
    ensures
        share_of(rows, command_line).valid(),
{
    lemma_count_in_total(rows, command_line);
}

proof fn lemma_count_in_total(rows: Seq<TransitionCount>, command_line: Seq<char>)
    ensures
        match count_for(rows, command_line) {
            Some(count) => count <= total(rows),
            None => true,
        },
    decreases rows.len(),
{
    if rows.len() > 0 {
        lemma_total_grows(rows, 1);
        assert(rows.take(1).drop_last() =~= Seq::<TransitionCount>::empty());
        lemma_total_skip(rows);
        lemma_count_in_total(rows.skip(1), command_line);
    }
}

proof fn lemma_total_skip(rows: Seq<TransitionCount>)
    requires
        rows.len() > 0,
    ensures
        total(rows) == rows[0].count + total(rows.skip(1)),
    decreases rows.len(),
{
    if rows.len() > 1 {
        lemma_total_skip(rows.drop_last());
        assert(rows.drop_last().skip(1) =~= rows.skip(1).drop_last());
    } else {
        assert(rows.drop_last() =~= Seq::<TransitionCount>::empty());
        assert(rows.skip(1) =~= Seq::<TransitionCount>::empty());
    }
}

/// The shares of each proposal lie between nothing and all.
pub proof fn law_nearby_features_valid(
    p: CwdHistoryPlugin,
    req: SuggestionRequest,
    reply: CwdHistoryReply,
    i: int,
)
    requires
        0 <= i < reply.entries@.len(),
        ranking::fits(reply.entries@[i].row.command_line@),
        reply.entries@[i].nearness.valid(),
        p.answerable(reply),
    ensures
        nearby_proposal(req, reply, i).features.valid(),
{
    let command_line = reply.entries@[i].row.command_line@;
    ranking::law_typed_share_valid(command_line, req.buffer@);
    lemma_rows_bounded(reply.transitions@, transition_word(command_line));
    law_transition_share_valid(
        rows_for(reply.transitions@, transition_word(command_line)),
        command_line,
    );
}

proof fn lemma_rows_bounded(replies: Seq<TransitionReply>, prefix: Seq<char>)
    requires
        forall|k: int|
            0 <= k < replies.len() ==> total((#[trigger] replies[k]).rows@) <= u64::MAX,
    ensures
        total(rows_for(replies, prefix)) <= u64::MAX,
    decreases replies.len(),
{
    if replies.len() > 0 {
        let rest = replies.skip(1);
        assert forall|k: int| 0 <= k < rest.len() implies total((#[trigger] rest[k]).rows@)
            <= u64::MAX by {
            assert(rest[k] == replies[k + 1]);
        }
        lemma_rows_bounded(rest, prefix);
        assert(total(replies[0].rows@) <= u64::MAX);
    }
}

/// No command nearby is lost: each command of the current directory is among
/// those to suggest, at full nearness, and so is each command of the parent
/// directory whose first word is not `cd`.
pub proof fn law_no_nearby_command_is_lost(
    cwd_rows: Seq<RankedCommand>,
    parent_rows: Seq<RankedCommand>,
    k: int,
)
    ensures
        0 <= k < cwd_rows.len() ==> exists|i: int|
            0 <= i < nearby_commands(cwd_rows, parent_rows).len() && (
            #[trigger] nearby_commands(cwd_rows, parent_rows)[i]).row.command_line@
                == cwd_rows[k].command_line@ && nearby_commands(cwd_rows, parent_rows)[i].nearness
                == (Share { part: 100, whole: 100 }),
        0 <= k < parent_rows.len() && !(text::words(parent_rows[k].command_line@).len() > 0
            && text::words(parent_rows[k].command_line@)[0] == "cd"@) ==> exists|i: int|
            0 <= i < nearby_commands(cwd_rows, parent_rows).len() && (
            #[trigger] nearby_commands(cwd_rows, parent_rows)[i]).row.command_line@
                == parent_rows[k].command_line@,
{
    let here = at(cwd_rows, Share::hundredths(100));
    let kept = parent_rows.filter(stays());
    let all = here + at(kept, Share::hundredths(50));
    let r = nearby_commands(cwd_rows, parent_rows);
    if 0 <= k < cwd_rows.len() {
        let label = cwd_rows[k].command_line@;
        assert(all[k].label() == label);
        distinct::law_same_labels(all, label);
        let i = choose|i: int| 0 <= i < r.len() && (#[trigger] r[i]).label() == label;
        law_here_beats_above(cwd_rows, parent_rows);
        assert(r[i].row.command_line@ == label);
        assert(cwd_rows[k].command_line@ == r[i].row.command_line@);
    }
    if 0 <= k < parent_rows.len() && !changes_directory(parent_rows[k]) {
        let label = parent_rows[k].command_line@;
        parent_rows.lemma_filter_contains(stays(), k);
        let m = choose|m: int| 0 <= m < kept.len() && kept[m] == parent_rows[k];
        assert(all[here.len() + m].label() == label);
        distinct::law_same_labels(all, label);
        let i = choose|i: int| 0 <= i < r.len() && (#[trigger] r[i]).label() == label;
        assert(r[i].row.command_line@ == label);
    }
}

/// The command line is that of some row.
pub open spec fn is_among(rows: Seq<RankedCommand>, command_line: Seq<char>) -> bool {
    exists|k: int| 0 <= k < rows.len() && (#[trigger] rows[k]).command_line@ == command_line
}

/// One more command of the current directory comes last, at full nearness,
/// unless it is there already.
pub proof fn law_one_more_here(cwd_rows: Seq<RankedCommand>, row: RankedCommand)
    ensures
        nearby_commands(cwd_rows.push(row), Seq::empty()) == (if is_among(
            cwd_rows,
            row.command_line@,
        ) {
            nearby_commands(cwd_rows, Seq::empty())
        } else {
            nearby_commands(cwd_rows, Seq::empty()).push(
                NearbyCommand { row, nearness: Share { part: 100, whole: 100 } },
            )
        }),
        nearby_commands(Seq::empty(), Seq::empty()) == Seq::<NearbyCommand>::empty(),
{
    reveal(Seq::filter);
    let none = at(Seq::<RankedCommand>::empty().filter(stays()), Share::hundredths(50));
    assert(none =~= Seq::<NearbyCommand>::empty());
    let near = Share::hundredths(100);
    let all = at(cwd_rows, near);
    let more = at(cwd_rows.push(row), near);
    assert(at(cwd_rows, near) + none =~= all);
    assert(at(cwd_rows.push(row), near) + none =~= more);
    assert(more.drop_last() =~= all);
    assert(more.last() == NearbyCommand { row, nearness: near });
    assert(distinct::labels(all, row.command_line@) <==> is_among(cwd_rows, row.command_line@))
        by {
        if distinct::labels(all, row.command_line@) {
            let k = choose|k: int|
                0 <= k < all.len() && (#[trigger] all[k]).label() == row.command_line@;
            assert(cwd_rows[k].command_line@ == row.command_line@);
        }
        if is_among(cwd_rows, row.command_line@) {
            let k = choose|k: int|
                0 <= k < cwd_rows.len() && (#[trigger] cwd_rows[k]).command_line@
                    == row.command_line@;
            assert(all[k].label() == row.command_line@);
        }
    }
    assert(at(Seq::<RankedCommand>::empty(), near) + none =~= Seq::<NearbyCommand>::empty());
}

/// One more command of the parent directory comes last, at half the nearness,
/// unless it is a `cd` or is there already.
pub proof fn law_one_more_above(
    cwd_rows: Seq<RankedCommand>,
    parent_rows: Seq<RankedCommand>,
    row: RankedCommand,
)
    ensures
        ({
            let words = text::words(row.command_line@);
            let before = nearby_commands(cwd_rows, parent_rows);
            let after = nearby_commands(cwd_rows, parent_rows.push(row));
            if words.len() > 0 && words[0] == "cd"@ || is_among(cwd_rows, row.command_line@)
                || is_among(parent_rows, row.command_line@) {
                after == before
            } else {
                after == before.push(NearbyCommand { row, nearness: Share { part: 50, whole: 100 } })
            }
        }),
{
    reveal(Seq::filter);
    let near = Share::hundredths(50);
    let here = at(cwd_rows, Share::hundredths(100));
    let kept = parent_rows.filter(stays());
    let all = here + at(kept, near);
    assert(parent_rows.push(row).drop_last() =~= parent_rows);
    let line = row.command_line@;
    if !changes_directory(row) {
        let more = here + at(kept.push(row), near);
        assert(more.drop_last() =~= all);
        assert(more.last() == NearbyCommand { row, nearness: near });
        assert(distinct::labels(all, line) <==> is_among(cwd_rows, line) || is_among(
            parent_rows,
            line,
        )) by {
            if distinct::labels(all, line) {
                let k = choose|k: int| 0 <= k < all.len() && (#[trigger] all[k]).label() == line;
                if k < here.len() {
                    assert(cwd_rows[k].command_line@ == line);
                } else {
                    let x = kept[k - here.len()];
                    assert(x.command_line@ == line);
                    assert(kept.contains(x));
                    parent_rows.lemma_filter_contains_rev(stays(), x);
                    let m = choose|m: int| 0 <= m < parent_rows.len() && parent_rows[m] == x;
                    assert(parent_rows[m].command_line@ == line);
                }
            }
            if is_among(cwd_rows, line) {
                let k = choose|k: int|
                    0 <= k < cwd_rows.len() && (#[trigger] cwd_rows[k]).command_line@ == line;
                assert(all[k].label() == line);
            }
            if is_among(parent_rows, line) {
                let k = choose|k: int|
                    0 <= k < parent_rows.len() && (#[trigger] parent_rows[k]).command_line@ == line;
                assert(stays()(parent_rows[k]));
                parent_rows.lemma_filter_contains(stays(), k);
                let m = choose|m: int| 0 <= m < kept.len() && kept[m] == parent_rows[k];
                assert(all[here.len() + m].label() == line);
            }
        }
    }
}

/// The parent directory is asked for every line but those of `cd`.
pub proof fn law_cd_keeps_to_its_directory(req: SuggestionRequest)
    ensures
        is_cd(req) <==> text::words(req.buffer@).len() > 0 && text::words(req.buffer@)[0] == "cd"@,
{
}

/// Each command nearby is proposed, in order, as it was run and with what is
/// known of it: how near and how old it is, how often it was run, and that it
/// ended well.
pub proof fn law_nearby_is_proposed(
    p: CwdHistoryPlugin,
    req: SuggestionRequest,
    reply: CwdHistoryReply,
    i: int,
)
    requires
        0 <= i < reply.entries@.len(),
    ensures
        ({
            let view = p.proposed(req, reply)[i];
            let entry = reply.entries@[i];
            let then = entry.row.timestamp;
            let now = req.timestamp_ms;
            &&& p.proposed(req, reply).len() == reply.entries@.len()
            &&& p.handles(req) <==> req.buffer@.len() > 0
            &&& view.text == entry.row.command_line@
            &&& view.source == "cwd_history"@
            &&& view.kind == SuggestionKind::Command
            &&& view.features.cwd_similarity == entry.nearness
            &&& view.features.success_bonus == (Share { part: 100, whole: 100 })
            &&& then < now ==> view.features.recency == (ranking::Recency::Aged {
                age_ms: (now - then) as u64,
            })
            &&& then >= now ==> view.features.recency == ranking::Recency::Fresh
            &&& view.features.frequency == (Share {
                part: if entry.row.frequency > 100 {
                    100
                } else {
                    entry.row.frequency
                },
                whole: 100,
            })
            &&& view.features.prefix_exactness == ranking::typed_share(
                entry.row.command_line@,
                req.buffer@,
            )
            &&& i < reply.found@.len() ==> view.features.path_exists == ranking::path_share(
                entry.row.command_line@,
                req.cwd@,
                text::option_view(reply.home),
                reply.found@[i],
            )
            &&& i >= reply.found@.len() ==> view.features.path_exists.part == 0
        }),
{
}

/// The last command speaks for a command by how often the one came after the
/// other, among all counts in the reply for its first word.
pub proof fn law_last_command_counts(
    p: CwdHistoryPlugin,
    req: SuggestionRequest,
    reply: CwdHistoryReply,
    i: int,
    k: int,
    j: int,
)
    requires
        0 <= i < reply.entries@.len(),
        p.answerable(reply),
        0 <= k < reply.transitions@.len(),
        ({
            let words = text::words(reply.entries@[i].row.command_line@);
            reply.transitions@[k].prefix@ == (if words.len() == 0 {
                Seq::empty()
            } else {
                words[0]
            })
        }),
        forall|m: int|
            0 <= m < k ==> (#[trigger] reply.transitions@[m]).prefix@
                != reply.transitions@[k].prefix@,
    ensures
        ({
            let share = p.proposed(req, reply)[i].features.last_command_transition;
            let line = reply.entries@[i].row.command_line@;
            let rows = reply.transitions@[k].rows@;
            &&& req.last_command is None ==> share.part == 0
            &&& req.last_command is Some && is_first_row(rows, line, j) && total(rows) > 0 ==> share
                == (Share { part: rows[j].count, whole: total(rows) as u64 })
            &&& (forall|m: int| 0 <= m < rows.len() ==> (#[trigger] rows[m]).command_line@ != line)
                ==> share.part == 0
            &&& total(rows) == 0 ==> share.part == 0
        }),
{
    let line = reply.entries@[i].row.command_line@;
    let word = transition_word(line);
    let rows = reply.transitions@[k].rows@;
    lemma_rows_for(reply.transitions@, word, k);
    if is_first_row(rows, line, j) {
        lemma_count_for(rows, line, j);
    }
    if forall|m: int| 0 <= m < rows.len() ==> (#[trigger] rows[m]).command_line@ != line {
        lemma_count_for_none(rows, line);
    }
}

/// The row is the first with the command.
pub open spec fn is_first_row(rows: Seq<TransitionCount>, command_line: Seq<char>, j: int) -> bool {
    &&& 0 <= j < rows.len()
    &&& rows[j].command_line@ == command_line
    &&& forall|m: int| 0 <= m < j ==> (#[trigger] rows[m]).command_line@ != command_line
}

proof fn lemma_rows_for(replies: Seq<TransitionReply>, prefix: Seq<char>, k: int)
    requires
        0 <= k < replies.len(),
        replies[k].prefix@ == prefix,
        forall|m: int| 0 <= m < k ==> (#[trigger] replies[m]).prefix@ != prefix,
    ensures
        rows_for(replies, prefix) == replies[k].rows@,
    decreases k,
{
    if k > 0 {
        let rest = replies.skip(1);
        assert(replies[0].prefix@ != prefix);
        assert forall|m: int| 0 <= m < k - 1 implies (#[trigger] rest[m]).prefix@ != prefix by {
            assert(rest[m] == replies[m + 1]);
        }
        lemma_rows_for(rest, prefix, k - 1);
    }
}

proof fn lemma_count_for(rows: Seq<TransitionCount>, command_line: Seq<char>, j: int)
    requires
        is_first_row(rows, command_line, j),
    ensures
        count_for(rows, command_line) == Some(rows[j].count),
    decreases j,
{
    if j > 0 {
        let rest = rows.skip(1);
        assert(rows[0].command_line@ != command_line);
        assert forall|m: int| 0 <= m < j - 1 implies (#[trigger] rest[m]).command_line@
            != command_line by {
            assert(rest[m] == rows[m + 1]);
        }
        lemma_count_for(rest, command_line, j - 1);
    }
}

proof fn lemma_count_for_none(rows: Seq<TransitionCount>, command_line: Seq<char>)
    requires
        forall|m: int| 0 <= m < rows.len() ==> (#[trigger] rows[m]).command_line@ != command_line,
    ensures
        count_for(rows, command_line) is None,
    decreases rows.len(),
{
    if rows.len() > 0 {
        let rest = rows.skip(1);
        assert(rows[0].command_line@ != command_line);
        assert forall|m: int| 0 <= m < rest.len() implies (#[trigger] rest[m]).command_line@
            != command_line by {
            assert(rest[m] == rows[m + 1]);
        }
        lemma_count_for_none(rest, command_line);
    }
}

/// Each count is part of the sum.
pub proof fn law_total(rows: Seq<TransitionCount>, row: TransitionCount)
    ensures
        total(rows.push(row)) == total(rows) + row.count,
        total(Seq::<TransitionCount>::empty()) == 0,
{
    assert(rows.push(row).drop_last() =~= rows);
}

/// The transitions are asked for once for each first word of a command, and for
/// nothing else.
pub proof fn law_transitions_are_asked_for(entries: Seq<NearbyCommand>, i: int, j: int)
    ensures
        0 <= i < entries.len() ==> ({
            let words = text::words(entries[i].row.command_line@);
            transition_words(entries).contains(
                if words.len() == 0 {
                    Seq::<char>::empty()
                } else {
                    words[0]
                },
            )
        }),
        0 <= i < j < transition_words(entries).len() ==> transition_words(entries)[i]
            != transition_words(entries)[j],
        0 <= i < transition_words(entries).len() ==> exists|k: int|
            0 <= k < entries.len() && transition_word((#[trigger] entries[k]).row.command_line@)
                == transition_words(entries)[i],
    decreases entries.len(),
{
    if entries.len() > 0 {
        let before = entries.drop_last();
        let rest = transition_words(before);
        let all = transition_words(entries);
        let word = transition_word(entries.last().row.command_line@);
        law_transitions_are_asked_for(before, i, j);
        if 0 <= i < before.len() {
            assert(before[i] == entries[i]);
            let w = transition_word(entries[i].row.command_line@);
            let k = choose|k: int| 0 <= k < rest.len() && rest[k] == w;
            assert(all[k] == w);
        } else if i == before.len() {
            if !rest.contains(word) {
                assert(all[rest.len() as int] == word);
            }
        }
        if 0 <= i < j < all.len() {
            if j == rest.len() {
                assert(all[i] == rest[i]);
                assert(rest.contains(rest[i]));
            }
        }
        if 0 <= i < all.len() {
            if i < rest.len() {
                let k = choose|k: int|
                    0 <= k < before.len() && transition_word(
                        (#[trigger] before[k]).row.command_line@,
                    ) == rest[i];
                assert(entries[k] == before[k]);
            } else {
                assert(transition_word(entries[entries.len() - 1].row.command_line@) == all[i]);
            }
        }
    }
}

} // verus!
