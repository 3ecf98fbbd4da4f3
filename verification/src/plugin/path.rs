//! Suggestions from the file system.
use vstd::hash_map::StringHashMap;
use vstd::prelude::*;
use crate::db::models::PathCacheEntry;
use crate::db::store;
use crate::order;
use crate::paths;
use crate::plugin;
use crate::plugin::{InlineProvider, ProposalView, Proposals, SuggestionKind, SuggestionRequest};
use crate::ranking;
use crate::ranking::{RankingFeatures, Share};
use crate::text;

verus! {

/// How long a directory listing may be used.
pub const CACHE_TTL_MS: u64 = 300_000;

/// An entry of a directory.
#[derive(Debug, Clone, PartialEq, Eq)]
pub struct DirEntry {
    pub name: String,
    pub is_dir: bool,
}

/// A directory listing in memory.
#[derive(Debug, Clone)]
pub struct MemoryCacheEntry {
    pub entries: Vec<DirEntry>,
    pub cached_at: u64,
}

/// Suggests the entries of the directory that is being typed.
pub struct PathPlugin {
    memory_cache: StringHashMap<MemoryCacheEntry>,
    show_hidden: bool,
    max_entries: usize,
}

/// The home directory, and the entries of the directory that is being typed.
#[derive(Debug, Clone)]
pub struct PathReply {
    pub home: Option<String>,
    pub entries: Vec<DirEntry>,
}

// ------------------------------------------------------------- command line

/// The commands whose arguments are paths.
pub open spec fn takes_path(cmd: Seq<char>) -> bool {
    cmd == "ls"@ || cmd == "vim"@ || cmd == "nvim"@ || cmd == "code"@ || cmd == "open"@ || cmd
        == "cat"@ || cmd == "less"@ || cmd == "head"@ || cmd == "tail"@ || cmd == "pushd"@
}

/// The word can only be a path.
pub open spec fn is_path_word(token: Seq<char>) -> bool {
    text::begins(token, "./"@) || text::begins(token, "../"@) || text::begins(token, "/"@)
        || text::begins(token, "~/"@)
}

/// The text ends in a blank.
pub open spec fn ends_in_blank(s: Seq<char>) -> bool {
    s.len() > 0 && s.last() == ' '
}

/// The command line is about a path.
pub open spec fn is_about_path(buffer: Seq<char>) -> bool {
    let parts = text::words(buffer);
    if parts.len() == 0 {
        false
    } else if parts.len() == 1 {
        if ends_in_blank(buffer) {
            takes_path(parts[0])
        } else {
            is_path_word(parts[0])
        }
    } else {
        takes_path(parts[0]) || is_path_word(parts.last())
    }
}

/// The command of the command line; nothing while the first word is typed.
pub open spec fn command_of(buffer: Seq<char>) -> Seq<char> {
    let parts = text::words(buffer);
    if parts.len() == 0 || parts.len() == 1 && !ends_in_blank(buffer) {
        Seq::empty()
    } else {
        parts[0]
    }
}

/// The word that is being typed.
pub open spec fn token_of(buffer: Seq<char>) -> Seq<char> {
    if ends_in_blank(buffer) {
        Seq::empty()
    } else {
        ranking::last_word(buffer)
    }
}

/// What stands between the command and the word that is being typed.
pub open spec fn middle_of(buffer: Seq<char>) -> Option<Seq<char>> {
    let parts = text::words(buffer);
    let end = if ends_in_blank(buffer) {
        parts.len() as int
    } else {
        parts.len() - 1
    };
    if end > 1 {
        Some(text::join(parts.subrange(1, end), " "@))
    } else {
        None
    }
}

/// The directory part of a word, up to and with its last slash.
pub open spec fn dir_part(token: Seq<char>) -> Seq<char> {
    token.take(text::last_at(token, '/') + 1)
}

/// The part of a word behind its last slash.
pub open spec fn name_part(token: Seq<char>) -> Seq<char> {
    token.skip(text::last_at(token, '/') + 1)
}

/// The directory that a word leads to.
pub open spec fn resolved_dir(
    token: Seq<char>,
    cwd: Seq<char>,
    home: Option<Seq<char>>,
) -> Option<Seq<char>> {
    let dir = dir_part(token);
    if dir.len() == 0 {
        Some(cwd)
    } else if dir[0] == '~' {
        match home {
            Some(h) => Some(h + dir.skip(1)),
            None => None,
        }
    } else {
        Some(paths::joined(cwd, dir))
    }
}

/// The directory whose entries a command line asks for.
pub open spec fn asked_dir(
    buffer: Seq<char>,
    cwd: Seq<char>,
    home: Option<Seq<char>>,
) -> Option<Seq<char>> {
    if text::words(buffer).len() == 0 {
        None
    } else {
        resolved_dir(token_of(buffer), cwd, home)
    }
}

struct CommandLine {
    cmd: Vec<char>,
    token: Vec<char>,
    middle: Option<Vec<char>>,
}

fn is_path_command(cmd: &Vec<char>) -> (r: bool)
    ensures
        r == takes_path(cmd@),
{
    text::is_str(cmd, "ls") || text::is_str(cmd, "vim") || text::is_str(cmd, "nvim")
        || text::is_str(cmd, "code") || text::is_str(cmd, "open") || text::is_str(cmd, "cat")
        || text::is_str(cmd, "less") || text::is_str(cmd, "head") || text::is_str(cmd, "tail")
        || text::is_str(cmd, "pushd")
}

fn is_path_token(token: &Vec<char>) -> (r: bool)
    ensures
        r == is_path_word(token@),
{
    text::starts_with_str(token, "./") || text::starts_with_str(token, "../")
        || text::starts_with_str(token, "/") || text::starts_with_str(token, "~/")
}

fn trailing_blank(v: &Vec<char>) -> (r: bool)
    ensures
        r == ends_in_blank(v@),
{
    v.len() > 0 && v[v.len() - 1] == ' '
}

fn copied(v: &Vec<char>) -> (r: Vec<char>)
    ensures
        r@ == v@,
{
    text::part(v, 0, v.len())
}

/// Takes a command line apart.
fn parse(buffer: &str) -> (r: Option<CommandLine>)
    ensures
        match r {
            Some(line) => {
                &&& text::words(buffer@).len() > 0
                &&& line.cmd@ == command_of(buffer@)
                &&& line.token@ == token_of(buffer@)
                &&& match line.middle {
                    Some(m) => middle_of(buffer@) == Some(m@),
                    None => middle_of(buffer@) is None,
                }
            },
            None => text::words(buffer@).len() == 0,
        },
{
    let v = text::chars_of(buffer);
    let parts = text::words_of(&v);
    let ghost words = text::words(buffer@);
    assert(words.len() == parts@.len());
    let n: usize = parts.len();
    if n == 0 {
        return None;
    }
    let trailing: bool = trailing_blank(&v);
    let end: usize = if trailing {
        n
    } else {
        n - 1
    };
    let cmd = if n == 1 && !trailing {
        Vec::new()
    } else {
        copied(&parts[0])
    };
    let token = if trailing {
        Vec::new()
    } else {
        copied(&parts[n - 1])
    };
    let middle = if end > 1 {
        let mut between: Vec<Vec<char>> = Vec::new();
        let mut i: usize = 1;
        assert(text::views(between@) =~= words.subrange(1, 1));
        while i < end
            invariant
                1 <= i <= end <= parts@.len(),
                words == text::views(parts@),
                text::views(between@) == words.subrange(1, i as int),
            decreases end - i,
        {
            let word = copied(&parts[i]);
            assert(text::views(between@.push(word)) =~= text::views(between@).push(word@));
            assert(words.subrange(1, i + 1) =~= words.subrange(1, i as int).push(word@));
            between.push(word);
            i += 1;
        }
        Some(text::joined(&between, " "))
    } else {
        None
    };
    assert(cmd@ =~= command_of(buffer@));
    assert(token@ =~= token_of(buffer@));
    Some(CommandLine { cmd, token, middle })
}

fn resolve_dir(token: &Vec<char>, cwd: &str, home: Option<&str>) -> (r: Option<String>)
    ensures
        text::option_view(r) == resolved_dir(token@, cwd@, ranking::slice_view(home)),
{
    proof {
        text::lemma_last_at(token@, '/');
    }
    let len: usize = token.len();
    let slash: usize = match text::rfind(token, '/') {
        Some(n) => n,
        None => {
            return Some(text::copy_str(cwd));
        },
    };
    assert(slash < len);
    let dir = text::part(token, 0, slash + 1);
    assert(dir@ =~= dir_part(token@));
    if dir[0] == '~' {
        match home {
            Some(h) => {
                let mut out = text::chars_of(h);
                let rest = text::part(&dir, 1, dir.len());
                assert(rest@ =~= dir@.skip(1));
                text::extend(&mut out, &rest);
                Some(text::string_of(&out))
            },
            None => None,
        }
    } else {
        let relative = text::string_of(&dir);
        Some(paths::join(cwd, relative.as_str()))
    }
}

// ------------------------------------------------------------------ listings

/// The entry is hidden.
pub open spec fn is_hidden(e: DirEntry) -> bool {
    e.name@.len() > 0 && e.name@[0] == '.'
}

/// An entry that was read and may be shown.
pub open spec fn shown(show_hidden: bool) -> spec_fn(Option<DirEntry>) -> Option<DirEntry> {
    |item: Option<DirEntry>|
        match item {
            Some(e) if show_hidden || !is_hidden(e) => Some(e),
            _ => None,
        }
}

/// The entries that can be read, without the hidden ones where those are not
/// wanted.
pub open spec fn visible(listing: Seq<Option<DirEntry>>, show_hidden: bool) -> Seq<DirEntry> {
    listing.filter_map(shown(show_hidden))
}

/// The test for entries that may be shown.
pub open spec fn may_show(show_hidden: bool) -> spec_fn(DirEntry) -> bool {
    |e: DirEntry| show_hidden || !is_hidden(e)
}

/// What is taken over of a listing that was kept elsewhere: as many entries as
/// are looked at, without the hidden ones where those are not wanted.
pub open spec fn adopted(names: Seq<DirEntry>, bound: usize, show_hidden: bool) -> Seq<DirEntry> {
    order::up_to(names, bound as int).filter(may_show(show_hidden))
}

/// The listing holds no more entries than are looked at, and hidden ones only
/// where they are wanted.
pub open spec fn within(entries: Seq<DirEntry>, bound: usize, show_hidden: bool) -> bool {
    &&& entries.len() <= bound
    &&& forall|i: int|
        0 <= i < entries.len() ==> show_hidden || !is_hidden(#[trigger] entries[i])
}

/// What has become known of a directory that is to be listed.
#[derive(Debug, Clone)]
pub enum ListingEvent {
    /// Nothing yet.
    Asked,
    /// The listing that the database keeps, if it can be used.
    Kept { names: Option<Vec<DirEntry>> },
    /// What the file system has, if the directory can be read: one item for
    /// each entry, empty where an entry could not be read.
    Read { listing: Option<Vec<Option<DirEntry>>> },
}

/// What is to be done next to list a directory.
#[derive(Debug, Clone)]
pub enum ListingAction {
    /// Ask the database for the listing that it keeps.
    AskDatabase,
    /// Read that many entries from the file system.
    ReadDirectory { limit: usize },
    /// Have the database keep these entries, and use them.
    Store { entries: Vec<DirEntry> },
    /// Use these entries.
    Done { entries: Vec<DirEntry> },
}

impl ListingAction {
    /// The entries that are to be used, once they are known.
    pub open spec fn entries(self) -> Option<Seq<DirEntry>> {
        match self {
            ListingAction::Store { entries } => Some(entries@),
            ListingAction::Done { entries } => Some(entries@),
            _ => None,
        }
    }
}

/// A listing that may still be used.
pub open spec fn usable(
    cache: Map<Seq<char>, MemoryCacheEntry>,
    dir: Seq<char>,
    now_ms: u64,
) -> Option<Seq<DirEntry>> {
    if cache.contains_key(dir) && store::is_fresh(cache[dir].cached_at, CACHE_TTL_MS, now_ms) {
        Some(cache[dir].entries@)
    } else {
        None
    }
}

/// The cache after a listing was put into it.
pub open spec fn keeps(
    before: Map<Seq<char>, MemoryCacheEntry>,
    after: Map<Seq<char>, MemoryCacheEntry>,
    dir: Seq<char>,
    entries: Seq<DirEntry>,
    now_ms: u64,
) -> bool {
    &&& after.contains_key(dir)
    &&& after[dir].entries@ == entries
    &&& after[dir].cached_at == now_ms
    &&& after == before.insert(dir, after[dir])
}

fn copy_entries(entries: &Vec<DirEntry>) -> (r: Vec<DirEntry>)
    ensures
        r@ == entries@,
{
    let mut out: Vec<DirEntry> = Vec::new();
    let mut i: usize = 0;
    while i < entries.len()
        invariant
            i <= entries@.len(),
            out@ == entries@.take(i as int),
        decreases entries@.len() - i,
    {
        let e = DirEntry { name: entries[i].name.clone(), is_dir: entries[i].is_dir };
        assert(entries@.take(i + 1) =~= entries@.take(i as int).push(e));
        out.push(e);
        i += 1;
    }
    assert(entries@.take(i as int) =~= entries@);
    out
}

fn starts_with_dot(name: &String) -> (r: bool)
    ensures
        r == (name@.len() > 0 && name@[0] == '.'),
{
    let v = text::chars_of(name.as_str());
    v.len() > 0 && v[0] == '.'
}

impl PathPlugin {
    /// The listings in memory.
    pub closed spec fn cache(self) -> Map<Seq<char>, MemoryCacheEntry> {
        self.memory_cache@
    }

    /// Hidden entries are wanted.
    pub closed spec fn shows_hidden(self) -> bool {
        self.show_hidden
    }

    /// How many entries of a directory are looked at.
    pub closed spec fn bound(self) -> usize {
        self.max_entries
    }

    /// Each listing in memory is as long as it may be, and holds hidden
    /// entries only where they are wanted.
    #[verifier::type_invariant]
    pub closed spec fn wf(self) -> bool {
        forall|dir: Seq<char>| #[trigger]
            self.memory_cache@.contains_key(dir) ==> within(
                self.memory_cache@[dir].entries@,
                self.max_entries,
                self.show_hidden,
            )
    }

    pub fn new(show_hidden: bool, max_entries: usize) -> (r: Self)
        ensures
            r.wf(),
            r.cache() == Map::<Seq<char>, MemoryCacheEntry>::empty(),
            r.shows_hidden() == show_hidden,
            r.bound() == max_entries,
    {
        PathPlugin { memory_cache: StringHashMap::new(), show_hidden, max_entries }
    }

    /// The directory whose entries are to be read, given the home directory.
    pub fn directory(&self, req: &SuggestionRequest, home: Option<&str>) -> (r: Option<String>)
        ensures
            text::option_view(r) == asked_dir(req.buffer@, req.cwd@, ranking::slice_view(home)),
    {
        match parse(req.buffer.as_str()) {
            Some(line) => resolve_dir(&line.token, req.cwd.as_str(), home),
            None => None,
        }
    }

    /// The entries of a directory, if they are in memory and not too old.
    pub fn remembered(&self, dir: &str, now_ms: u64) -> (r: Option<Vec<DirEntry>>)
        ensures
            match r {
                Some(entries) => {
                    &&& usable(self.cache(), dir@, now_ms) == Some(entries@)
                    &&& within(entries@, self.bound(), self.shows_hidden())
                },
                None => usable(self.cache(), dir@, now_ms) is None,
            },
    {
        proof {
            use_type_invariant(self);
        }
        match self.memory_cache.get(dir) {
            Some(kept) => {
                if store::fresh(kept.cached_at, CACHE_TTL_MS, now_ms) {
                    Some(copy_entries(&kept.entries))
                } else {
                    None
                }
            },
            None => None,
        }
    }

    fn keep(&mut self, dir: &str, entries: &Vec<DirEntry>, now_ms: u64)
        requires
            within(entries@, old(self).bound(), old(self).shows_hidden()),
        ensures
            final(self).wf(),
            keeps(old(self).cache(), final(self).cache(), dir@, entries@, now_ms),
            final(self).shows_hidden() == old(self).shows_hidden(),
            final(self).bound() == old(self).bound(),
    {
        proof {
            use_type_invariant(&*self);
        }
        let kept = MemoryCacheEntry { entries: copy_entries(entries), cached_at: now_ms };
        let mut cache: StringHashMap<MemoryCacheEntry> = StringHashMap::new();
        std::mem::swap(&mut cache, &mut self.memory_cache);
        cache.insert(text::copy_str(dir), kept);
        self.memory_cache = cache;
        assert(self.cache() =~= old(self).cache().insert(dir@, kept));
    }

    /// Takes over the listing of a directory that the database kept.
    pub fn adopt(&mut self, dir: &str, names: Vec<DirEntry>, now_ms: u64) -> (r: Vec<DirEntry>)
        ensures
            r@ == adopted(names@, old(self).bound(), old(self).shows_hidden()),
            within(r@, old(self).bound(), old(self).shows_hidden()),
            keeps(old(self).cache(), final(self).cache(), dir@, r@, now_ms),
            final(self).wf(),
            final(self).shows_hidden() == old(self).shows_hidden(),
            final(self).bound() == old(self).bound(),
    {
        let ghost kept = names@;
        let mut names = names;
        names.truncate(self.max_entries);
        let show_hidden: bool = self.show_hidden;
        let ghost all = names@;
        let mut entries: Vec<DirEntry> = Vec::new();
        assert(all =~= order::up_to(kept, self.bound() as int));
        reveal(Seq::filter);
        for e in it: names
            invariant
                it.seq() == all,
                entries@ == all.take(it.index() as int).filter(may_show(show_hidden)),
        {
            proof {
                reveal(Seq::filter);
                let n = it.index() as int;
                assert(all.take(n + 1).drop_last() =~= all.take(n));
                assert(all.take(n + 1).last() == e);
            }
            if show_hidden || !starts_with_dot(&e.name) {
                entries.push(e);
            }
        }
        assert(all.take(all.len() as int) =~= all);
        proof {
            law_listing_is_bounded(Seq::empty(), kept, self.bound(), show_hidden);
        }
        self.keep(dir, &entries, now_ms);
        entries
    }

    /// Takes over what was read from a directory: one item for each entry in
    /// the order of the file system, empty where an entry could not be read.
    pub fn take_listing(
        &mut self,
        dir: &str,
        listing: Vec<Option<DirEntry>>,
        now_ms: u64,
    ) -> (r: Vec<DirEntry>)
        ensures
            r@ == visible(order::up_to(listing@, old(self).bound() as int), old(self).shows_hidden()),
            within(r@, old(self).bound(), old(self).shows_hidden()),
            final(self).wf(),
            keeps(old(self).cache(), final(self).cache(), dir@, r@, now_ms),
            final(self).shows_hidden() == old(self).shows_hidden(),
            final(self).bound() == old(self).bound(),
    {
        let ghost read = listing@;
        let mut listing = listing;
        listing.truncate(self.max_entries);
        let show_hidden: bool = self.show_hidden;
        let ghost all = listing@;
        let mut entries: Vec<DirEntry> = Vec::new();
        assert(all =~= order::up_to(read, self.bound() as int));
        for item in it: listing
            invariant
                it.seq() == all,
                entries@ == visible(all.take(it.index() as int), show_hidden),
        {
            proof {
                let n = it.index() as int;
                assert(all.take(n + 1).drop_last() =~= all.take(n));
                assert(all.take(n + 1).last() == item);
            }
            if let Some(e) = item {
                if show_hidden || !starts_with_dot(&e.name) {
                    assert(entries@ + seq![e] =~= entries@.push(e));
                    entries.push(e);
                }
            }
        }
        assert(all.take(all.len() as int) =~= all);
        proof {
            law_listing_is_bounded(read, Seq::empty(), self.bound(), show_hidden);
        }
        self.keep(dir, &entries, now_ms);
        entries
    }

    /// What is to be done next to list a directory: what is in memory is used,
    /// then what the database keeps, and the file system is read last.
    pub fn next_listing(
        &mut self,
        dir: &str,
        event: ListingEvent,
        now_ms: u64,
    ) -> (r: ListingAction)
        ensures
            final(self).wf(),
            final(self).shows_hidden() == old(self).shows_hidden(),
            final(self).bound() == old(self).bound(),
            match r.entries() {
                Some(entries) => within(entries, old(self).bound(), old(self).shows_hidden()),
                None => true,
            },
            match event {
                ListingEvent::Asked => {
                    &&& final(self).cache() == old(self).cache()
                    &&& match usable(old(self).cache(), dir@, now_ms) {
                        Some(entries) => r is Done && r.entries() == Some(entries),
                        None => r is AskDatabase,
                    }
                },
                ListingEvent::Kept { names: Some(names) } => {
                    let entries = adopted(names@, old(self).bound(), old(self).shows_hidden());
                    &&& r is Done && r.entries() == Some(entries)
                    &&& keeps(old(self).cache(), final(self).cache(), dir@, entries, now_ms)
                },
                ListingEvent::Kept { names: None } => {
                    &&& r == (ListingAction::ReadDirectory { limit: old(self).bound() })
                    &&& final(self).cache() == old(self).cache()
                },
                ListingEvent::Read { listing: Some(listing) } => {
                    let looked_at = order::up_to(listing@, old(self).bound() as int);
                    let entries = visible(looked_at, old(self).shows_hidden());
                    &&& r is Store && r.entries() == Some(entries)
                    &&& keeps(old(self).cache(), final(self).cache(), dir@, entries, now_ms)
                },
                ListingEvent::Read { listing: None } => {
                    &&& r is Done && r.entries() == Some(Seq::<DirEntry>::empty())
                    &&& final(self).cache() == old(self).cache()
                },
            },
    {
        proof {
            use_type_invariant(&*self);
        }
        match event {
            ListingEvent::Asked => match self.remembered(dir, now_ms) {
                Some(entries) => ListingAction::Done { entries },
                None => ListingAction::AskDatabase,
            },
            ListingEvent::Kept { names: Some(names) } => {
                ListingAction::Done { entries: self.adopt(dir, names, now_ms) }
            },
            ListingEvent::Kept { names: None } => {
                ListingAction::ReadDirectory { limit: self.max_entries }
            },
            ListingEvent::Read { listing: Some(listing) } => {
                ListingAction::Store { entries: self.take_listing(dir, listing, now_ms) }
            },
            ListingEvent::Read { listing: None } => {
                let entries: Vec<DirEntry> = Vec::new();
                ListingAction::Done { entries }
            },
        }
    }

    /// The row by which the database keeps a listing that was read.
    pub fn cache_row(
        &self,
        dir: &str,
        entries_json: String,
        entries: &Vec<DirEntry>,
        now_ms: u64,
    ) -> (r: PathCacheEntry)
        ensures
            r.dir_path@ == dir@,
            r.entries_json == entries_json,
            r.entry_count == entries@.len(),
            r.cached_at == now_ms,
    {
        PathCacheEntry {
            dir_path: text::copy_str(dir),
            entries_json,
            entry_count: entries.len(),
            cached_at: now_ms,
        }
    }
}

// --------------------------------------------------------------- suggestions

/// The name goes on from the prefix, where need be without regard to case.
pub open spec fn goes_on(
    name: Seq<char>,
    prefix: Seq<char>,
    lower_name: Seq<char>,
    lower_prefix: Seq<char>,
) -> bool {
    prefix.len() == 0 || text::begins(name, prefix) || text::begins(lower_name, lower_prefix)
}

/// Whether a name goes on from a prefix, given both in lower case.
pub fn name_matches(
    name: &str,
    prefix: &str,
    lower_name: &str,
    lower_prefix: &str,
) -> (r: bool)
    ensures
        r == goes_on(name@, prefix@, lower_name@, lower_prefix@),
{
    if prefix.is_empty() {
        return true;
    }
    let n = text::chars_of(name);
    let l = text::chars_of(lower_name);
    text::starts_with_str(&n, prefix) || text::starts_with_str(&l, lower_prefix)
}

/// Whether a name goes on from a prefix, where need be without regard to case.
pub(crate) fn matches_prefix(name: &str, prefix: &str, lower_prefix: &str) -> (r: bool)
    requires
        lower_prefix@ == text::lowercase_of(prefix@),
    ensures
        r == goes_on(
            name@,
            prefix@,
            text::lowercase_of(name@),
            text::lowercase_of(prefix@),
        ),
{
    let n = text::chars_of(name);
    if prefix.is_empty() || text::starts_with_str(&n, prefix) {
        return true;
    }
    let lower_name = text::lowercase(name);
    name_matches(name, prefix, lower_name.as_str(), lower_prefix)
}

/// How well an entry is what the command expects.
pub open spec fn type_share(cmd: Seq<char>, is_dir: bool) -> Share {
    let wants_dir = ranking::takes_directory(cmd);
    let wants_file = ranking::takes_file(cmd);
    if wants_dir && is_dir || wants_file && !is_dir {
        Share::hundredths(100)
    } else if !wants_dir && !wants_file {
        Share::hundredths(50)
    } else {
        Share::hundredths(30)
    }
}

/// The command line with the path that is being typed replaced.
pub open spec fn completed_line(buffer: Seq<char>, path: Seq<char>) -> Seq<char> {
    let cmd = command_of(buffer);
    if cmd.len() == 0 {
        path
    } else {
        match middle_of(buffer) {
            Some(middle) => cmd + " "@ + middle + " "@ + path,
            None => cmd + " "@ + path,
        }
    }
}

/// The proposal of one entry.
pub open spec fn path_proposal(buffer: Seq<char>, e: DirEntry) -> Option<ProposalView> {
    let cmd = command_of(buffer);
    let token = token_of(buffer);
    let prefix = name_part(token);
    if !goes_on(e.name@, prefix, text::lowercase_of(e.name@), text::lowercase_of(prefix))
        || ranking::takes_directory(cmd) && !e.is_dir {
        None
    } else {
        Some(
            ProposalView {
                text: completed_line(buffer, dir_part(token) + e.name@),
                source: "path"@,
                kind: SuggestionKind::Path,
                features: RankingFeatures {
                    prefix_exactness: if prefix.len() == 0 {
                        Share::hundredths(10)
                    } else {
                        ranking::typed_share(e.name@, prefix)
                    },
                    path_exists: type_share(cmd, e.is_dir),
                    ..plugin::no_features()
                },
            },
        )
    }
}

/// The proposal of an entry, as a function of the entry.
pub open spec fn path_proposer(buffer: Seq<char>) -> spec_fn(DirEntry) -> Option<ProposalView> {
    |e: DirEntry| path_proposal(buffer, e)
}

/// The proposals of a list of entries.
pub open spec fn path_proposals(buffer: Seq<char>, entries: Seq<DirEntry>) -> Seq<ProposalView> {
    entries.filter_map(path_proposer(buffer))
}

fn complete(line: &CommandLine, path: &Vec<char>) -> (r: String)
    ensures
        r@ == (if line.cmd@.len() == 0 {
            path@
        } else {
            match line.middle {
                Some(middle) => line.cmd@ + " "@ + middle@ + " "@ + path@,
                None => line.cmd@ + " "@ + path@,
            }
        }),
{
    if line.cmd.len() == 0 {
        return text::string_of(path);
    }
    let mut out = copied(&line.cmd);
    text::extend_str(&mut out, " ");
    if let Some(middle) = &line.middle {
        text::extend(&mut out, middle);
        text::extend_str(&mut out, " ");
    }
    text::extend(&mut out, path);
    text::string_of(&out)
}

impl InlineProvider for PathPlugin {
    type Reply = PathReply;

    open spec fn known_as(&self) -> Seq<char> {
        "path"@
    }

    open spec fn handles(&self, req: SuggestionRequest) -> bool {
        req.buffer@.len() > 0 && is_about_path(req.buffer@)
    }

    open spec fn answerable(&self, reply: PathReply) -> bool {
        true
    }

    open spec fn proposed(&self, req: SuggestionRequest, reply: PathReply) -> Seq<ProposalView> {
        match asked_dir(req.buffer@, req.cwd@, text::option_view(reply.home)) {
            Some(_) => path_proposals(req.buffer@, reply.entries@),
            None => Seq::empty(),
        }
    }

    fn name(&self) -> (r: &'static str) {
        "path"
    }

    fn supports(&self, req: &SuggestionRequest) -> (r: bool) {
        if req.buffer.as_str().is_empty() {
            return false;
        }
        let v = text::chars_of(req.buffer.as_str());
        let parts = text::words_of(&v);
        assert(text::views(parts@).len() == parts@.len());
        let n: usize = parts.len();
        if n == 0 {
            false
        } else if n == 1 {
            if trailing_blank(&v) {
                is_path_command(&parts[0])
            } else {
                is_path_token(&parts[0])
            }
        } else {
            is_path_command(&parts[0]) || is_path_token(&parts[n - 1])
        }
    }

    fn suggest(&self, req: &SuggestionRequest, reply: PathReply) -> (r: Proposals) {
        let mut out = Proposals::new();
        assert(out@ =~= Seq::<ProposalView>::empty());
        let ghost buffer = req.buffer@;
        let line = match parse(req.buffer.as_str()) {
            Some(line) => line,
            None => return out,
        };
        let home: Option<&str> = match &reply.home {
            Some(h) => Some(h.as_str()),
            None => None,
        };
        if resolve_dir(&line.token, req.cwd.as_str(), home).is_none() {
            return out;
        }
        proof {
            text::lemma_last_at(line.token@, '/');
        }
        let split: usize = match text::rfind(&line.token, '/') {
            Some(n) => n + 1,
            None => 0,
        };
        let dir_prefix = text::part(&line.token, 0, split);
        let rest = text::part(&line.token, split, line.token.len());
        assert(dir_prefix@ =~= dir_part(line.token@));
        assert(rest@ =~= name_part(line.token@));
        let prefix = text::string_of(&rest);
        let lower_prefix = text::lowercase(prefix.as_str());
        let cmd = text::string_of(&line.cmd);
        let wants_dir: bool = ranking::expects_directory(cmd.as_str());
        let wants_file: bool = ranking::expects_file(cmd.as_str());
        let mut i: usize = 0;
        while i < reply.entries.len()
            invariant
                i <= reply.entries@.len(),
                buffer == req.buffer@,
                line.cmd@ == command_of(buffer),
                line.token@ == token_of(buffer),
                match line.middle {
                    Some(m) => middle_of(buffer) == Some(m@),
                    None => middle_of(buffer) is None,
                },
                dir_prefix@ == dir_part(token_of(buffer)),
                prefix@ == name_part(token_of(buffer)),
                lower_prefix@ == text::lowercase_of(prefix@),
                wants_dir == ranking::takes_directory(command_of(buffer)),
                wants_file == ranking::takes_file(command_of(buffer)),
                out@ == path_proposals(buffer, reply.entries@.take(i as int)),
            decreases reply.entries@.len() - i,
        {
            let ghost before = reply.entries@.take(i as int);
            let ghost after = reply.entries@.take(i + 1);
            assert(after.drop_last() =~= before);
            let entry = &reply.entries[i];
            let fits: bool = matches_prefix(
                entry.name.as_str(),
                prefix.as_str(),
                lower_prefix.as_str(),
            );
            if fits && (!wants_dir || entry.is_dir) {
                let mut path = copied(&dir_prefix);
                text::extend_str(&mut path, entry.name.as_str());
                let suggestion = complete(&line, &path);
                let type_score: u64 = if (wants_dir && entry.is_dir) || (wants_file
                    && !entry.is_dir) {
                    100
                } else if !wants_dir && !wants_file {
                    50
                } else {
                    30
                };
                let prefix_score = if prefix.as_str().is_empty() {
                    Share::percent(10)
                } else {
                    ranking::prefix_exactness(entry.name.as_str(), prefix.as_str())
                };
                let features = RankingFeatures {
                    prefix_exactness: prefix_score,
                    cwd_similarity: Share::percent(0),
                    path_exists: Share::percent(type_score),
                    recency: ranking::Recency::Unknown,
                    frequency: Share::percent(0),
                    last_command_transition: Share::percent(0),
                    success_bonus: Share::percent(0),
                };
                let ghost p = ProposalView {
                    text: suggestion@,
                    source: "path"@,
                    kind: SuggestionKind::Path,
                    features,
                };
                assert(path_proposal(buffer, *entry) == Some(p));
                assert(path_proposals(buffer, after) =~= out@.push(p));
                out.propose(suggestion, "path", SuggestionKind::Path, features);
            } else {
                assert(path_proposal(buffer, *entry) is None);
                assert(path_proposals(buffer, after) =~= out@);
            }
            i += 1;
        }
        assert(reply.entries@.take(i as int) =~= reply.entries@);
        out
    }
}

// --------------------------------------------------------------------- laws

proof fn lemma_filter_map_len<A, B>(s: Seq<A>, f: spec_fn(A) -> Option<B>)
    ensures
        s.filter_map(f).len() <= s.len(),
    decreases s.len(),
{
    if s.len() > 0 {
        lemma_filter_map_len(s.drop_last(), f);
    }
}

/// However large a directory is, no more entries are kept than the bound
/// allows, and hidden ones only where they are wanted, wherever the listing
/// came from.
pub proof fn law_listing_is_bounded(
    listing: Seq<Option<DirEntry>>,
    names: Seq<DirEntry>,
    bound: usize,
    show_hidden: bool,
)
    ensures
        within(adopted(names, bound, show_hidden), bound, show_hidden),
        within(visible(order::up_to(listing, bound as int), show_hidden), bound, show_hidden),
{
    let looked_at = order::up_to(listing, bound as int);
    let entries = visible(looked_at, show_hidden);
    lemma_filter_map_len(looked_at, shown(show_hidden));
    assert forall|i: int| 0 <= i < entries.len() implies show_hidden || !is_hidden(
        #[trigger] entries[i],
    ) by {
        assert(entries.contains(entries[i]));
        looked_at.lemma_filter_map_contains(shown(show_hidden), entries[i]);
    }
    let kept = order::up_to(names, bound as int);
    kept.lemma_filter_len(may_show(show_hidden));
    assert forall|i: int| 0 <= i < adopted(names, bound, show_hidden).len() implies show_hidden
        || !is_hidden(#[trigger] adopted(names, bound, show_hidden)[i]) by {
        kept.lemma_filter_pred(may_show(show_hidden), i);
    }
}

/// What is in memory is as long as it may be, and holds hidden entries only
/// where they are wanted.
pub proof fn law_memory_is_bounded(plugin: PathPlugin, dir: Seq<char>)
    requires
        plugin.wf(),
        plugin.cache().contains_key(dir),
    ensures
        within(plugin.cache()[dir].entries@, plugin.bound(), plugin.shows_hidden()),
{
}

/// A listing that was kept is given back until it is too old, and other
/// listings are not touched.
pub proof fn law_listing_is_given_back(
    before: Map<Seq<char>, MemoryCacheEntry>,
    after: Map<Seq<char>, MemoryCacheEntry>,
    dir: Seq<char>,
    entries: Seq<DirEntry>,
    now_ms: u64,
    later_ms: u64,
)
    requires
        keeps(before, after, dir, entries, now_ms),
    ensures
        usable(after, dir, later_ms) == (if later_ms - now_ms <= CACHE_TTL_MS {
            Some(entries)
        } else {
            None
        }),
        forall|other: Seq<char>|
            other != dir ==> #[trigger] usable(after, other, later_ms) == usable(
                before,
                other,
                later_ms,
            ),
{
}

/// Each proposal is an entry of the directory, and a directory where the
/// command expects one.
pub proof fn law_proposals_exist(buffer: Seq<char>, entries: Seq<DirEntry>, p: ProposalView)
    requires
        path_proposals(buffer, entries).contains(p),
    ensures
        exists|e: DirEntry|
            #[trigger] entries.contains(e) && p.text == completed_line(
                buffer,
                dir_part(token_of(buffer)) + e.name@,
            ) && (ranking::takes_directory(command_of(buffer)) ==> e.is_dir),
{
    entries.lemma_filter_map_contains(path_proposer(buffer), p);
    let e = choose|e: DirEntry|
        #[trigger] entries.contains(e) && path_proposer(buffer)(e) == Some(p);
    assert(entries.contains(e) && path_proposal(buffer, e) == Some(p));
}

/// There are no more proposals than entries.
pub proof fn law_proposals_are_bounded(buffer: Seq<char>, entries: Seq<DirEntry>)
    ensures
        path_proposals(buffer, entries).len() <= entries.len(),
{
    lemma_filter_map_len(entries, path_proposer(buffer));
}

/// The shares of each proposal lie between nothing and all.
pub proof fn law_path_features_valid(buffer: Seq<char>, e: DirEntry)
    requires
        ranking::fits(e.name@),
    ensures
        match path_proposal(buffer, e) {
            Some(p) => p.features.valid(),
            None => true,
        },
{
    ranking::law_typed_share_valid(e.name@, name_part(token_of(buffer)));
}

/// `word` is being typed behind `front`: it may be empty behind a blank, where a
/// command stands before it.
pub open spec fn is_typed(front: Seq<char>, word: Seq<char>) -> bool {
    &&& text::open_ended(front)
    &&& if word.len() == 0 {
        front.len() > 0 && front.last() == ' ' && text::words(front).len() > 0
    } else {
        text::is_word(word)
    }
}

/// `head` and `name` are the two sides of the last slash of a word, which goes
/// with the former.
pub open spec fn is_split(head: Seq<char>, name: Seq<char>) -> bool {
    !name.contains('/') && (head.len() == 0 || head.last() == '/')
}

/// A word with its last slash at the end of `head` is taken apart there.
pub proof fn lemma_split(head: Seq<char>, name: Seq<char>)
    requires
        is_split(head, name),
    ensures
        dir_part(head + name) == head,
        name_part(head + name) == name,
{
    let word = head + name;
    assert forall|i: int| 0 <= i < name.len() implies name[i] != '/' by {
        assert(name.contains(name[i]));
    }
    assert forall|i: int| head.len() <= i < word.len() implies #[trigger] word[i] != '/' by {
        assert(word[i] == name[i - head.len()]);
    }
    text::lemma_last_at(word, '/');
    if head.len() > 0 {
        assert(word[head.len() - 1] == '/');
        text::lemma_last_at_is(word, '/', head.len() - 1);
    } else {
        assert(text::last_at(word, '/') == -1);
    }
    assert(word.take(head.len() as int) =~= head);
    assert(word.skip(head.len() as int) =~= name);
}

proof fn lemma_typed(front: Seq<char>, word: Seq<char>)
    requires
        is_typed(front, word),
    ensures
        ({
            let buffer = front + word;
            let before = text::words(front);
            &&& text::words(buffer).len() > 0
            &&& token_of(buffer) == word
            &&& command_of(buffer) == (if before.len() == 0 {
                Seq::empty()
            } else {
                before[0]
            })
            &&& middle_of(buffer) == (if before.len() > 1 {
                Some(text::join(before.subrange(1, before.len() as int), " "@))
            } else {
                None
            })
        }),
{
    let buffer = front + word;
    let before = text::words(front);
    if word.len() == 0 {
        assert(buffer =~= front);
        assert(word =~= Seq::<char>::empty());
    } else {
        text::law_word_added(front, word);
        assert(buffer.last() == word[word.len() - 1]);
        assert(text::is_space(' '));
        assert(!ends_in_blank(buffer));
        let parts = text::words(buffer);
        assert(parts.last() == word);
        if before.len() > 0 {
            assert(parts[0] == before[0]);
            assert(parts.subrange(1, before.len() as int) =~= before.subrange(
                1,
                before.len() as int,
            ));
        }
    }
}

/// The directory that is listed for a word is what its part up to and with the
/// last slash stands for: behind a tilde, what is below the home directory;
/// behind a slash, itself; else what is below the current directory, which is
/// meant where there is no slash at all. Every character of that part counts.
pub proof fn law_directory_of_word(
    front: Seq<char>,
    head: Seq<char>,
    name: Seq<char>,
    cwd: Seq<char>,
    home: Option<Seq<char>>,
)
    requires
        is_split(head, name),
        is_typed(front, head + name),
    ensures
        ({
            let dir = asked_dir(front + (head + name), cwd, home);
            &&& head.len() == 0 ==> dir == Some(cwd)
            &&& head.len() > 0 && head[0] == '~' ==> dir == (match home {
                Some(h) => Some(h + head.subrange(1, head.len() as int)),
                None => None::<Seq<char>>,
            })
            &&& head.len() > 0 && head[0] == '/' ==> dir == Some(head)
            &&& head.len() > 0 && head[0] != '~' && head[0] != '/' ==> {
                &&& cwd.len() > 0 && cwd.last() == '/' ==> dir == Some(cwd + head)
                &&& cwd.len() > 0 && cwd.last() != '/' ==> dir == Some(cwd + seq!['/'] + head)
            }
        }),
{
    lemma_typed(front, head + name);
    lemma_split(head, name);
    if head.len() > 0 {
        paths::law_join_is_below(cwd, head);
        assert(head.skip(1) =~= head.subrange(1, head.len() as int));
    }
}

/// A word `~/d/name` asks for the directory `d` of the home directory.
pub proof fn law_home_directory(
    front: Seq<char>,
    d: Seq<char>,
    name: Seq<char>,
    cwd: Seq<char>,
    home: Seq<char>,
)
    requires
        !name.contains('/'),
        is_typed(front, seq!['~', '/'] + d + seq!['/'] + name),
    ensures
        asked_dir(front + (seq!['~', '/'] + d + seq!['/'] + name), cwd, Some(home)) == Some(
            home + seq!['/'] + d + seq!['/'],
        ),
{
    let head = seq!['~', '/'] + d + seq!['/'];
    assert(head + name =~= seq!['~', '/'] + d + seq!['/'] + name);
    law_directory_of_word(front, head, name, cwd, Some(home));
    assert(home + head.subrange(1, head.len() as int) =~= home + seq!['/'] + d + seq!['/']);
}

/// Entry by entry: one more entry brings one more proposal, at the end, where its
/// name goes on from what was typed behind the last slash and it is a directory
/// where the command takes one, and else none. The line that is proposed has the
/// words before, and the word with the name completed.
pub proof fn law_one_more_entry(
    p: PathPlugin,
    req: SuggestionRequest,
    reply: PathReply,
    more: PathReply,
    e: DirEntry,
    front: Seq<char>,
    head: Seq<char>,
    name: Seq<char>,
)
    requires
        is_split(head, name),
        is_typed(front, head + name),
        req.buffer@ == front + (head + name),
        more.entries@ == reply.entries@.push(e),
        text::option_view(more.home) == text::option_view(reply.home),
    ensures
        ({
            let before = text::words(front);
            let cmd = if before.len() == 0 {
                Seq::<char>::empty()
            } else {
                before[0]
            };
            let wants_dir = cmd == "cd"@ || cmd == "pushd"@ || cmd == "ls"@;
            let wants_file = cmd == "vim"@ || cmd == "nvim"@ || cmd == "code"@ || cmd == "open"@
                || cmd == "cat"@ || cmd == "less"@ || cmd == "head"@ || cmd == "tail"@;
            let goes_on = name.len() == 0 || text::begins(e.name@, name) || text::begins(
                text::lowercase_of(e.name@),
                text::lowercase_of(name),
            );
            let homeless = head.len() > 0 && head[0] == '~' && reply.home is None;
            let old = p.proposed(req, reply);
            let new = p.proposed(req, more);
            if goes_on && (wants_dir ==> e.is_dir) && !homeless {
                let v = new.last();
                let f = v.features;
                &&& new == old.push(v)
                &&& v.text == text::join(before.push(head + e.name@), seq![' '])
                &&& v.source == "path"@
                &&& v.kind == SuggestionKind::Path
                &&& name.len() == 0 ==> f.prefix_exactness == (Share { part: 10, whole: 100 })
                &&& name.len() > 0 ==> f.prefix_exactness == ranking::typed_share(e.name@, name)
                &&& f.path_exists == (Share {
                    part: if wants_dir && e.is_dir || wants_file && !e.is_dir {
                        100
                    } else if !wants_dir && !wants_file {
                        50
                    } else {
                        30
                    },
                    whole: 100,
                })
                &&& f.recency == ranking::Recency::Unknown
                &&& f.cwd_similarity.part == 0 && f.frequency.part == 0
                &&& f.last_command_transition.part == 0 && f.success_bonus.part == 0
            } else {
                new == old
            }
        }),
        reply.entries@.len() == 0 ==> p.proposed(req, reply).len() == 0,
{
    let buffer = req.buffer@;
    let before = text::words(front);
    lemma_typed(front, head + name);
    lemma_split(head, name);
    assert(more.entries@.drop_last() =~= reply.entries@);
    assert(more.entries@.last() == e);
    let path = head + e.name@;
    reveal_strlit(" ");
    assert(" "@ =~= seq![' ']);
    assert(completed_line(buffer, path) == text::join(before.push(path), seq![' '])) by {
        reveal_with_fuel(text::join, 3);
        if before.len() == 0 {
            assert(before.push(path) =~= seq![path]);
        } else {
            let cmd = before[0];
            text::law_word_is_not_empty(front, 0);
            text::law_join(before, seq![' '], path);
            if before.len() == 1 {
                assert(before =~= seq![cmd]);
            } else {
                let rest = before.subrange(1, before.len() as int);
                assert(before.skip(1) =~= rest);
                assert(cmd + " "@ + text::join(rest, " "@) + " "@ + path =~= text::join(
                    before,
                    seq![' '],
                ) + seq![' '] + path);
            }
        }
    }
    let f = path_proposer(buffer);
    match f(e) {
        Some(v) => {
            assert(path_proposals(buffer, more.entries@) =~= path_proposals(
                buffer,
                reply.entries@,
            ).push(v));
        },
        None => {
            assert(path_proposals(buffer, more.entries@) =~= path_proposals(
                buffer,
                reply.entries@,
            ));
        },
    }
}

/// What a proposed line names is the entry that was listed: the path that is
/// looked at for the line is that of the entry in the directory.
pub proof fn law_proposal_names_entry(
    cmd: Seq<char>,
    head: Seq<char>,
    name: Seq<char>,
    entry: Seq<char>,
    cwd: Seq<char>,
    home: Option<Seq<char>>,
)
    requires
        is_split(head, name),
        is_typed(cmd + seq![' '], head + name),
        text::is_word(cmd),
        ranking::takes_directory(cmd) || ranking::takes_file(cmd),
        text::is_word(entry),
        !entry.contains('/'),
        head.len() == 0 ==> entry[0] != '~',
        cwd.len() > 0,
    ensures
        ({
            let dir = asked_dir(cmd + seq![' '] + (head + name), cwd, home);
            let line = cmd + seq![' '] + (head + entry);
            let path = ranking::named_path(line, cwd, home);
            match dir {
                Some(d) => path == Some(
                    if d.len() > 0 && d.last() != '/' {
                        d + seq!['/'] + entry
                    } else {
                        d + entry
                    },
                ),
                None => path is None,
            }
        }),
{
    let gap = seq![' '];
    let none = Seq::<char>::empty();
    let arg = head + entry;
    law_directory_of_word(cmd + gap, head, name, cwd, home);
    assert(text::is_space(' '));
    assert(entry[0] != '/') by {
        assert(entry.contains(entry[0]));
    }
    assert(!text::is_space(arg[0])) by {
        if head.len() > 0 {
            assert(arg[0] == (head + name)[0]);
        }
    }
    assert(arg.last() == entry[entry.len() - 1]);
    ranking::law_named_path(cmd, gap, arg, none, cwd, home);
    assert(cmd + gap + arg + none =~= cmd + gap + arg);
    ranking::law_known_commands(cmd);
    let known = seq![
        "cd"@,
        "pushd"@,
        "ls"@,
        "vim"@,
        "nvim"@,
        "code"@,
        "open"@,
        "cat"@,
        "less"@,
        "head"@,
        "tail"@,
    ];
    assert(known[0] == "cd"@ && known[1] == "pushd"@ && known[2] == "ls"@ && known[3] == "vim"@
        && known[4] == "nvim"@ && known[5] == "code"@ && known[6] == "open"@ && known[7] == "cat"@
        && known[8] == "less"@ && known[9] == "head"@ && known[10] == "tail"@);
    assert(known.contains(cmd));
    if head.len() > 0 {
        assert(arg[0] == head[0]);
        let dir = asked_dir(cmd + gap + (head + name), cwd, home);
        if head[0] == '~' {
            if home is Some {
                let h = home->0;
                if head.len() > 1 {
                    assert(dir->0.last() == '/');
                    assert(h + arg.skip(1) =~= dir->0 + entry);
                } else {
                    assert(head.last() == '~');
                }
            }
        } else if head[0] == '/' {
            assert(dir->0.last() == '/');
        } else {
            assert(dir->0.last() == '/');
            if cwd.last() == '/' {
                let shorter = cwd.drop_last();
                ranking::law_named_path(cmd, gap, arg, none, shorter, home);
                assert(shorter.push('/') =~= cwd);
                assert(shorter + seq!['/'] + arg =~= dir->0 + entry);
            } else {
                assert(cwd + seq!['/'] + arg =~= dir->0 + entry);
            }
        }
    } else {
        assert(arg =~= entry);
        if cwd.last() == '/' {
            let shorter = cwd.drop_last();
            ranking::law_named_path(cmd, gap, arg, none, shorter, home);
            assert(shorter.push('/') =~= cwd);
            assert(shorter + seq!['/'] + arg =~= cwd + entry);
        }
    }
}

/// A line is about a path where its command is one of those that take paths, or
/// the last word begins as only a path does. A word alone has no command yet.
pub proof fn law_lines_about_paths(p: PathPlugin, req: SuggestionRequest)
    ensures
        ({
            let w = text::words(req.buffer@);
            let last = w.last();
            let listed = seq![
                "ls"@,
                "vim"@,
                "nvim"@,
                "code"@,
                "open"@,
                "cat"@,
                "less"@,
                "head"@,
                "tail"@,
                "pushd"@,
            ].contains(w[0]);
            let path_like = text::begins(last, seq!['.', '/']) || text::begins(
                last,
                seq!['.', '.', '/'],
            ) || text::begins(last, seq!['/']) || text::begins(last, seq!['~', '/']);
            let blank = req.buffer@.len() > 0 && req.buffer@.last() == ' ';
            &&& w.len() == 0 ==> !p.handles(req)
            &&& w.len() == 1 && !blank ==> (p.handles(req) <==> path_like)
            &&& w.len() == 1 && blank ==> (p.handles(req) <==> listed)
            &&& w.len() >= 2 ==> (p.handles(req) <==> listed || path_like)
        }),
{
    let w = text::words(req.buffer@);
    let listed = seq![
        "ls"@,
        "vim"@,
        "nvim"@,
        "code"@,
        "open"@,
        "cat"@,
        "less"@,
        "head"@,
        "tail"@,
        "pushd"@,
    ];
    assert(listed[0] == "ls"@ && listed[1] == "vim"@ && listed[2] == "nvim"@ && listed[3]
        == "code"@ && listed[4] == "open"@ && listed[5] == "cat"@ && listed[6] == "less"@
        && listed[7] == "head"@ && listed[8] == "tail"@ && listed[9] == "pushd"@);
    reveal_strlit("./");
    reveal_strlit("../");
    reveal_strlit("/");
    reveal_strlit("~/");
    assert("./"@ =~= seq!['.', '/']);
    assert("../"@ =~= seq!['.', '.', '/']);
    assert("/"@ =~= seq!['/']);
    assert("~/"@ =~= seq!['~', '/']);
    if w.len() > 0 && req.buffer@.len() == 0 {
        assert(text::trim_start(req.buffer@).len() == 0);
    }
}

/// Entry by entry: of a listing that was kept elsewhere each entry is taken over,
/// in order, until the bound is reached, but for the hidden ones where those are
/// not wanted. A hidden name begins with a dot.
pub proof fn law_one_more_adopted(
    names: Seq<DirEntry>,
    e: DirEntry,
    bound: usize,
    show_hidden: bool,
)
    ensures
        ({
            let hidden = e.name@.len() > 0 && e.name@[0] == '.';
            adopted(names.push(e), bound, show_hidden) == (if names.len() < bound && (show_hidden
                || !hidden) {
                adopted(names, bound, show_hidden).push(e)
            } else {
                adopted(names, bound, show_hidden)
            })
        }),
        adopted(Seq::empty(), bound, show_hidden) == Seq::<DirEntry>::empty(),
{
    reveal(Seq::filter);
    let more = names.push(e);
    if names.len() < bound {
        assert(order::up_to(more, bound as int) =~= more);
        assert(order::up_to(names, bound as int) =~= names);
        assert(more.drop_last() =~= names);
    } else {
        assert(order::up_to(more, bound as int) =~= order::up_to(names, bound as int));
    }
    assert(order::up_to(Seq::<DirEntry>::empty(), bound as int) =~= Seq::<DirEntry>::empty());
}

/// Item by item: of what was read from a directory each entry is shown, in order,
/// but for those that could not be read and the hidden ones where those are not
/// wanted.
pub proof fn law_one_more_visible(
    listing: Seq<Option<DirEntry>>,
    item: Option<DirEntry>,
    show_hidden: bool,
)
    ensures
        visible(listing.push(item), show_hidden) == (match item {
            Some(e) => if show_hidden || !(e.name@.len() > 0 && e.name@[0] == '.') {
                visible(listing, show_hidden).push(e)
            } else {
                visible(listing, show_hidden)
            },
            None => visible(listing, show_hidden),
        }),
        visible(Seq::empty(), show_hidden) == Seq::<DirEntry>::empty(),
{
    let more = listing.push(item);
    assert(more.drop_last() =~= listing);
    assert(more.last() == item);
    match shown(show_hidden)(item) {
        Some(e) => {
            assert(visible(more, show_hidden) =~= visible(listing, show_hidden).push(e));
        },
        None => {
            assert(visible(more, show_hidden) =~= visible(listing, show_hidden));
        },
    }
}

/// A listing that was kept is given out for five minutes, and not after; one that
/// was not kept is not.
pub proof fn law_listing_lasts_five_minutes(
    cache: Map<Seq<char>, MemoryCacheEntry>,
    dir: Seq<char>,
    now_ms: u64,
)
    ensures
        !cache.contains_key(dir) ==> usable(cache, dir, now_ms) is None,
        cache.contains_key(dir) ==> {
            let kept = cache[dir];
            &&& now_ms <= kept.cached_at + 300_000 ==> usable(cache, dir, now_ms) == Some(
                kept.entries@,
            )
            &&& now_ms > kept.cached_at + 300_000 ==> usable(cache, dir, now_ms) is None
        },
{
}

} // verus!
