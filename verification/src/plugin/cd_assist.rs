//! Suggestions for `cd` where nothing was run in this directory yet.
use vstd::prelude::*;
use crate::config::CdFallbackMode;
use crate::db::store::CwdQuery;
use crate::paths;
use crate::plugin;
use crate::plugin::path;
use crate::plugin::path::DirEntry;
use crate::plugin::{InlineProvider, ProposalView, Proposals, SuggestionKind, SuggestionRequest};
use crate::ranking;
use crate::ranking::{RankingFeatures, Share};
use crate::text;

verus! {

/// Suggests the directories below the current one.
#[derive(Debug, Clone, Copy)]
pub struct CdAssistPlugin {
    mode: CdFallbackMode,
}

/// Whether the journal has a command for the request, and what was read from
/// the directory: nothing where it could not be opened, else one item for each
/// entry, empty where an entry could not be read.
#[derive(Debug, Clone)]
pub struct CdAssistReply {
    pub has_history: bool,
    pub listing: Option<Vec<Option<DirEntry>>>,
}

/// The directory that is being typed.
pub open spec fn cd_token(mode: CdFallbackMode, buffer: Seq<char>) -> Option<Seq<char>> {
    let parts = text::words(buffer);
    if mode == CdFallbackMode::Disabled || ranking::first_word(buffer) != Some("cd"@)
        || path::ends_in_blank(buffer) || parts.len() < 2 {
        None
    } else {
        Some(parts[1])
    }
}

/// The directory in which to look for a word: none for an absolute path, a
/// home directory, or a word without a name behind its last slash.
pub open spec fn local_dir(token: Seq<char>, cwd: Seq<char>) -> Option<Seq<char>> {
    if token.len() == 0 || token[0] == '/' || token[0] == '~' || path::name_part(token).len()
        == 0 {
        None
    } else if path::dir_part(token).len() == 0 {
        Some(cwd)
    } else {
        Some(paths::joined(cwd, path::dir_part(token)))
    }
}

/// The entries before the first that could not be read.
pub open spec fn read_part(listing: Seq<Option<DirEntry>>) -> Seq<DirEntry>
    decreases listing.len(),
{
    if listing.len() == 0 {
        Seq::empty()
    } else {
        let before = read_part(listing.drop_last());
        match listing.last() {
            Some(e) if before.len() == listing.len() - 1 => before.push(e),
            _ => before,
        }
    }
}

/// The proposal of one entry.
pub open spec fn cd_proposal(token: Seq<char>, e: DirEntry) -> Option<ProposalView> {
    let prefix = path::name_part(token);
    if !e.is_dir || !path::goes_on(
        e.name@,
        prefix,
        text::lowercase_of(e.name@),
        text::lowercase_of(prefix),
    ) {
        None
    } else {
        Some(
            ProposalView {
                text: "cd "@ + path::dir_part(token) + e.name@,
                source: "cd_assist"@,
                kind: SuggestionKind::Path,
                features: RankingFeatures {
                    prefix_exactness: ranking::typed_share(e.name@, prefix),
                    cwd_similarity: Share::hundredths(100),
                    path_exists: Share::hundredths(100),
                    ..plugin::no_features()
                },
            },
        )
    }
}

/// The proposal of an entry, as a function of the entry.
pub open spec fn cd_proposer(token: Seq<char>) -> spec_fn(DirEntry) -> Option<ProposalView> {
    |e: DirEntry| cd_proposal(token, e)
}

fn token_in(mode: CdFallbackMode, buffer: &str) -> (r: Option<Vec<char>>)
    ensures
        match r {
            Some(t) => cd_token(mode, buffer@) == Some(t@),
            None => cd_token(mode, buffer@) is None,
        },
{
    if mode == CdFallbackMode::Disabled {
        return None;
    }
    let v = text::chars_of(buffer);
    if v.len() == 0 || v[v.len() - 1] == ' ' {
        assert(v.len() == 0 ==> text::words(buffer@).len() == 0);
        return None;
    }
    let parts = text::words_of(&v);
    assert(text::views(parts@).len() == parts@.len());
    if parts.len() < 2 || !text::is_str(&parts[0], "cd") {
        return None;
    }
    Some(text::part(&parts[1], 0, parts[1].len()))
}

fn dir_to_read(token: &Vec<char>, cwd: &str) -> (r: Option<String>)
    ensures
        text::option_view(r) == local_dir(token@, cwd@),
{
    let len: usize = token.len();
    if len == 0 || token[0] == '/' || token[0] == '~' {
        return None;
    }
    proof {
        text::lemma_last_at(token@, '/');
    }
    match text::rfind(token, '/') {
        Some(n) => {
            if n + 1 == len {
                return None;
            }
            let head = text::part(token, 0, n + 1);
            assert(head@ =~= path::dir_part(token@));
            let dir = text::string_of(&head);
            Some(paths::join(cwd, dir.as_str()))
        },
        None => Some(text::copy_str(cwd)),
    }
}

fn readable(listing: Vec<Option<DirEntry>>) -> (r: Vec<DirEntry>)
    ensures
        r@ == read_part(listing@),
{
    let ghost all = listing@;
    let mut out: Vec<DirEntry> = Vec::new();
    let mut stopped: bool = false;
    for item in it: listing
        invariant
            it.seq() == all,
            out@ == read_part(all.take(it.index() as int)),
            out@.len() <= it.index(),
            stopped == (out@.len() < it.index()),
    {
        proof {
            let n = it.index() as int;
            assert(all.take(n + 1).drop_last() =~= all.take(n));
            assert(all.take(n + 1).last() == item);
        }
        match item {
            Some(e) => {
                if !stopped {
                    out.push(e);
                }
            },
            None => {
                stopped = true;
            },
        }
    }
    assert(all.take(all.len() as int) =~= all);
    out
}

impl CdAssistPlugin {
    /// What is suggested.
    pub closed spec fn fallback(self) -> CdFallbackMode {
        self.mode
    }

    pub fn new(mode: CdFallbackMode) -> (r: Self)
        ensures
            r.fallback() == mode,
    {
        CdAssistPlugin { mode }
    }

    /// What to ask of the journal: any command that begins with what was typed
    /// and was run in the current directory.
    pub fn history_query(&self, req: &SuggestionRequest) -> (r: CwdQuery)
        ensures
            r.asks(req.cwd@, req.buffer@, 1),
    {
        CwdQuery::new(req.cwd.as_str(), req.buffer.as_str(), 1)
    }

    /// The directory whose entries are to be read, unless the journal has a
    /// command.
    pub fn directory(&self, req: &SuggestionRequest, has_history: bool) -> (r: Option<String>)
        ensures
            text::option_view(r) == (match cd_token(self.fallback(), req.buffer@) {
                Some(token) if !has_history => local_dir(token, req.cwd@),
                _ => None,
            }),
    {
        match token_in(self.mode, req.buffer.as_str()) {
            Some(token) => {
                if has_history {
                    None
                } else {
                    dir_to_read(&token, req.cwd.as_str())
                }
            },
            None => None,
        }
    }
}

impl InlineProvider for CdAssistPlugin {
    type Reply = CdAssistReply;

    open spec fn known_as(&self) -> Seq<char> {
        "cd_assist"@
    }

    open spec fn handles(&self, req: SuggestionRequest) -> bool {
        cd_token(self.fallback(), req.buffer@) is Some
    }

    open spec fn answerable(&self, reply: CdAssistReply) -> bool {
        true
    }

    open spec fn proposed(&self, req: SuggestionRequest, reply: CdAssistReply) -> Seq<
        ProposalView,
    > {
        match (cd_token(self.fallback(), req.buffer@), reply.listing) {
            (Some(token), Some(listing)) if !reply.has_history && local_dir(
                token,
                req.cwd@,
            ) is Some => read_part(listing@).filter_map(cd_proposer(token)),
            _ => Seq::empty(),
        }
    }

    fn name(&self) -> (r: &'static str) {
        "cd_assist"
    }

    fn supports(&self, req: &SuggestionRequest) -> (r: bool) {
        token_in(self.mode, req.buffer.as_str()).is_some()
    }

    fn suggest(&self, req: &SuggestionRequest, reply: CdAssistReply) -> (r: Proposals) {
        let mut out = Proposals::new();
        assert(out@ =~= Seq::<ProposalView>::empty());
        let token = match token_in(self.mode, req.buffer.as_str()) {
            Some(token) => token,
            None => return out,
        };
        if reply.has_history || dir_to_read(&token, req.cwd.as_str()).is_none() {
            return out;
        }
        let listing = match reply.listing {
            Some(listing) => listing,
            None => return out,
        };
        let entries = readable(listing);
        let len: usize = token.len();
        proof {
            text::lemma_last_at(token@, '/');
        }
        let split: usize = match text::rfind(&token, '/') {
            Some(n) => {
                assert(n < len);
                n + 1
            },
            None => 0,
        };
        let dir_prefix = text::part(&token, 0, split);
        let rest = text::part(&token, split, len);
        assert(dir_prefix@ =~= path::dir_part(token@));
        assert(rest@ =~= path::name_part(token@));
        let prefix = text::string_of(&rest);
        let lower_prefix = text::lowercase(prefix.as_str());
        let ghost propose = cd_proposer(token@);
        let mut i: usize = 0;
        while i < entries.len()
            invariant
                i <= entries@.len(),
                propose == cd_proposer(token@),
                dir_prefix@ == path::dir_part(token@),
                prefix@ == path::name_part(token@),
                lower_prefix@ == text::lowercase_of(prefix@),
                out@ == entries@.take(i as int).filter_map(propose),
            decreases entries@.len() - i,
        {
            let ghost before = entries@.take(i as int);
            let ghost after = entries@.take(i + 1);
            assert(after.drop_last() =~= before);
            let entry = &entries[i];
            if path::matches_prefix(entry.name.as_str(), prefix.as_str(), lower_prefix.as_str())
                && entry.is_dir {
                let mut line = text::chars_of("cd ");
                text::extend(&mut line, &dir_prefix);
                text::extend_str(&mut line, entry.name.as_str());
                let features = RankingFeatures {
                    prefix_exactness: ranking::prefix_exactness(
                        entry.name.as_str(),
                        prefix.as_str(),
                    ),
                    cwd_similarity: Share::percent(100),
                    path_exists: Share::percent(100),
                    recency: ranking::Recency::Unknown,
                    frequency: Share::percent(0),
                    last_command_transition: Share::percent(0),
                    success_bonus: Share::percent(0),
                };
                let suggestion = text::string_of(&line);
                let ghost p = ProposalView {
                    text: suggestion@,
                    source: "cd_assist"@,
                    kind: SuggestionKind::Path,
                    features,
                };
                assert(cd_proposal(token@, *entry) == Some(p));
                assert(after.filter_map(propose) =~= out@.push(p));
                out.propose(suggestion, "cd_assist", SuggestionKind::Path, features);
            } else {
                assert(cd_proposal(token@, *entry) is None);
                assert(after.filter_map(propose) =~= out@);
            }
            i += 1;
        }
        assert(entries@.take(i as int) =~= entries@);
        out
    }
}

// --------------------------------------------------------------------- laws

/// Switched off, or where the journal has a command for this directory,
/// nothing is proposed.
pub proof fn law_silent_when_not_needed(
    p: CdAssistPlugin,
    req: SuggestionRequest,
    reply: CdAssistReply,
)
    requires
        p.fallback() == CdFallbackMode::Disabled || reply.has_history,
    ensures
        p.proposed(req, reply).len() == 0,
{
}

/// Each proposal is a directory that was read.
pub proof fn law_proposals_are_directories(
    p: CdAssistPlugin,
    req: SuggestionRequest,
    reply: CdAssistReply,
    view: ProposalView,
)
    requires
        p.proposed(req, reply).contains(view),
    ensures
        exists|e: DirEntry|
            #[trigger] read_part(reply.listing->0@).contains(e) && e.is_dir && view.text == "cd "@
                + path::dir_part(cd_token(p.fallback(), req.buffer@)->0) + e.name@,
{
    let token = cd_token(p.fallback(), req.buffer@)->0;
    let entries = read_part(reply.listing->0@);
    entries.lemma_filter_map_contains(cd_proposer(token), view);
    let e = choose|e: DirEntry|
        #[trigger] entries.contains(e) && cd_proposer(token)(e) == Some(view);
    assert(entries.contains(e) && cd_proposal(token, e) == Some(view));
}

/// The shares of each proposal lie between nothing and all.
pub proof fn law_cd_features_valid(token: Seq<char>, e: DirEntry)
    requires
        ranking::fits(e.name@),
    ensures
        match cd_proposal(token, e) {
            Some(p) => p.features.valid(),
            None => true,
        },
{
    ranking::law_typed_share_valid(e.name@, path::name_part(token));
}

/// The directory that is read for `cd` and a word is the current one joined with
/// the part of the word up to and with its last slash. None is read for a word
/// that begins with a slash or a tilde or ends in a slash, behind a blank, for
/// another command, or where the assistance is switched off.
pub proof fn law_directory_of_word(
    mode: CdFallbackMode,
    buffer: Seq<char>,
    cwd: Seq<char>,
    head: Seq<char>,
    name: Seq<char>,
)
    requires
        path::is_split(head, name),
    ensures
        ({
            let w = text::words(buffer);
            let dir = match cd_token(mode, buffer) {
                Some(token) => local_dir(token, cwd),
                None => None,
            };
            let asked = mode == CdFallbackMode::CurrentDirOnly && w.len() >= 2 && w[0] == "cd"@
                && buffer.last() != ' ';
            &&& cd_token(mode, buffer) is Some <==> asked
            &&& asked && w[1] == head + name ==> {
                let first = w[1][0];
                &&& name.len() == 0 || first == '/' || first == '~' ==> dir is None
                &&& name.len() > 0 && first != '/' && first != '~' && head.len() == 0 ==> dir
                    == Some(cwd)
                &&& name.len() > 0 && first != '/' && first != '~' && head.len() > 0 ==> {
                    &&& cwd.len() > 0 && cwd.last() != '/' ==> dir == Some(cwd + seq!['/'] + head)
                    &&& cwd.len() > 0 && cwd.last() == '/' ==> dir == Some(cwd + head)
                }
            }
        }),
{
    let w = text::words(buffer);
    if w.len() > 0 && buffer.len() == 0 {
        assert(text::trim_start(buffer).len() == 0);
    }
    if w.len() >= 2 && w[1] == head + name {
        text::law_word_is_not_empty(buffer, 1);
        path::lemma_split(head, name);
        if head.len() > 0 {
            assert((head + name)[0] == head[0]);
            paths::law_join_is_below(cwd, head);
        }
    }
}

proof fn lemma_read_all(listing: Seq<Option<DirEntry>>)
    ensures
        read_part(listing).len() <= listing.len(),
        (forall|k: int| 0 <= k < listing.len() ==> (#[trigger] listing[k]) is Some) ==> read_part(
            listing,
        ).len() == listing.len(),
    decreases listing.len(),
{
    if listing.len() > 0 {
        let before = listing.drop_last();
        lemma_read_all(before);
        if forall|k: int| 0 <= k < listing.len() ==> (#[trigger] listing[k]) is Some {
            assert forall|k: int| 0 <= k < before.len() implies (#[trigger] before[k]) is Some by {
                assert(before[k] == listing[k]);
            }
            assert(listing[listing.len() - 1] is Some);
        }
    }
}

/// Reading stops at the first entry that cannot be read.
pub proof fn law_reading_stops(listing: Seq<Option<DirEntry>>, rest: Seq<Option<DirEntry>>)
    ensures
        read_part(listing.push(None) + rest) == read_part(listing),
    decreases rest.len(),
{
    let all = listing.push(None) + rest;
    lemma_read_all(listing);
    if rest.len() == 0 {
        assert(all =~= listing.push(None));
        assert(all.drop_last() =~= listing);
    } else {
        law_reading_stops(listing, rest.drop_last());
        assert(all.drop_last() =~= listing.push(None) + rest.drop_last());
    }
}

/// Entry by entry: of what was read one more entry brings one more proposal, at
/// the end, where it is a directory whose name goes on from what was typed
/// behind the last slash, and else none. The line that is proposed is `cd` and
/// the word with the name completed.
pub proof fn law_one_more_entry(
    p: CdAssistPlugin,
    req: SuggestionRequest,
    reply: CdAssistReply,
    more: CdAssistReply,
    e: DirEntry,
    head: Seq<char>,
    name: Seq<char>,
)
    requires
        path::is_split(head, name),
        p.fallback() == CdFallbackMode::CurrentDirOnly,
        text::words(req.buffer@).len() >= 2,
        text::words(req.buffer@)[0] == "cd"@,
        text::words(req.buffer@)[1] == head + name,
        req.buffer@.last() != ' ',
        name.len() > 0,
        (head + name)[0] != '/',
        (head + name)[0] != '~',
        !reply.has_history,
        !more.has_history,
        reply.listing is Some,
        more.listing is Some,
        forall|k: int|
            0 <= k < reply.listing->0@.len() ==> (#[trigger] reply.listing->0@[k]) is Some,
        more.listing->0@ == reply.listing->0@.push(Some(e)),
    ensures
        ({
            let old = p.proposed(req, reply);
            let new = p.proposed(req, more);
            let goes_on = text::begins(e.name@, name) || text::begins(
                text::lowercase_of(e.name@),
                text::lowercase_of(name),
            );
            if e.is_dir && goes_on {
                let v = new.last();
                let f = v.features;
                &&& new == old.push(v)
                &&& v.text == seq!['c', 'd', ' '] + head + e.name@
                &&& v.source == "cd_assist"@
                &&& v.kind == SuggestionKind::Path
                &&& f.prefix_exactness == ranking::typed_share(e.name@, name)
                &&& f.cwd_similarity == (Share { part: 100, whole: 100 })
                &&& f.path_exists == (Share { part: 100, whole: 100 })
                &&& f.recency == ranking::Recency::Unknown
                &&& f.frequency.part == 0 && f.last_command_transition.part == 0
                &&& f.success_bonus.part == 0
            } else {
                new == old
            }
        }),
        reply.listing->0@.len() == 0 ==> p.proposed(req, reply).len() == 0,
{
    let buffer = req.buffer@;
    let token = head + name;
    law_directory_of_word(p.fallback(), buffer, req.cwd@, head, name);
    path::lemma_split(head, name);
    let a = reply.listing->0@;
    let b = more.listing->0@;
    lemma_read_all(a);
    assert(b.drop_last() =~= a);
    assert(read_part(b) == read_part(a).push(e));
    assert(read_part(b).drop_last() =~= read_part(a));
    reveal_strlit("cd ");
    assert("cd "@ =~= seq!['c', 'd', ' ']);
    let f = cd_proposer(token);
    match f(e) {
        Some(v) => {
            assert(read_part(b).filter_map(f) =~= read_part(a).filter_map(f).push(v));
        },
        None => {
            assert(read_part(b).filter_map(f) =~= read_part(a).filter_map(f));
        },
    }
}

/// What a proposal changes to, taken from the current directory, is the entry
/// that was read.
pub proof fn law_proposal_names_entry(
    head: Seq<char>,
    name: Seq<char>,
    entry: Seq<char>,
    cwd: Seq<char>,
    home: Option<Seq<char>>,
)
    requires
        path::is_split(head, name),
        name.len() > 0,
        text::is_word(head + name),
        (head + name)[0] != '/',
        (head + name)[0] != '~',
        text::is_word(entry),
        !entry.contains('/'),
        head.len() == 0 ==> entry[0] != '~',
        cwd.len() > 0,
    ensures
        local_dir(head + name, cwd) is Some,
        ranking::named_path("cd "@ + head + entry, cwd, home) == Some(
            if local_dir(head + name, cwd)->0.last() == '/' {
                local_dir(head + name, cwd)->0 + entry
            } else {
                local_dir(head + name, cwd)->0 + seq!['/'] + entry
            },
        ),
{
    let cmd = "cd"@;
    let gap = seq![' '];
    reveal_strlit("cd");
    reveal_strlit("cd ");
    path::lemma_split(head, name);
    assert("cd "@ + head + entry =~= cmd + gap + (head + entry));
    assert forall|i: int| 0 <= i < cmd.len() implies !text::is_space(#[trigger] cmd[i]) by {}
    assert(text::open_ended(cmd + gap));
    path::law_proposal_names_entry(cmd, head, name, entry, cwd, home);
    path::law_directory_of_word(cmd + gap, head, name, cwd, home);
    if head.len() > 0 {
        assert((head + name)[0] == head[0]);
        paths::law_join_is_below(cwd, head);
        if cwd.last() == '/' {
            assert(paths::joined(cwd, head) == cwd + head);
        }
    }
}

} // verus!
