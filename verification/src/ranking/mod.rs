//! What a command line says about itself, and the features by which its
//! suggestions are weighed.
//!
//! A feature is a share, a fraction between nothing and all. The score of a
//! suggestion is the sum of its shares, each times its weight in hundredths.
use vstd::prelude::*;
use crate::paths;
use crate::plugin::SuggestionCandidate;
use crate::text;

verus! {

/// The weight of `RankingFeatures::prefix_exactness` in hundredths.
pub const PREFIX_EXACTNESS_WEIGHT: u64 = 30;

/// The weight of `RankingFeatures::cwd_similarity` in hundredths.
pub const CWD_SIMILARITY_WEIGHT: u64 = 25;

/// The weight of `RankingFeatures::path_exists` in hundredths.
pub const PATH_EXISTS_WEIGHT: u64 = 20;

/// The weight of `RankingFeatures::recency` in hundredths.
pub const RECENCY_WEIGHT: u64 = 10;

/// The weight of `RankingFeatures::frequency` in hundredths.
pub const FREQUENCY_WEIGHT: u64 = 5;

/// The weight of `RankingFeatures::last_command_transition` in hundredths.
pub const TRANSITION_WEIGHT: u64 = 5;

/// The weight of `RankingFeatures::success_bonus` in hundredths.
pub const SUCCESS_WEIGHT: u64 = 5;

/// The IEEE 754 single-precision bits of 0.6, the least score with which a
/// dangerous command is suggested.
pub const DANGEROUS_THRESHOLD_BITS: u32 = 0x3F19_999A;

/// The weights are hundredths of one whole.
pub proof fn law_weights_sum_to_one()
    ensures
        PREFIX_EXACTNESS_WEIGHT + CWD_SIMILARITY_WEIGHT + PATH_EXISTS_WEIGHT + RECENCY_WEIGHT
            + FREQUENCY_WEIGHT + TRANSITION_WEIGHT + SUCCESS_WEIGHT == 100,
{
}

/// The fraction `part / whole`.
#[derive(Debug, Clone, Copy, PartialEq, Eq, Structural)]
pub struct Share {
    pub part: u64,
    pub whole: u64,
}

impl Share {
    /// The share lies between nothing and all.
    pub open spec fn valid(self) -> bool {
        self.part <= self.whole && self.whole > 0
    }

    /// The share of so many hundredths.
    pub open spec fn hundredths(n: u64) -> Share {
        Share { part: n, whole: 100 }
    }

    /// The share of so many hundredths.
    pub fn percent(n: u64) -> (r: Share)
        ensures
            r == Share::hundredths(n),
    {
        Share { part: n, whole: 100 }
    }
}

/// How long ago a command was run. It counts as half of its worth for each day
/// of its age.
#[derive(Debug, Clone, Copy, PartialEq, Eq, Structural)]
pub enum Recency {
    /// Not known: worth nothing.
    Unknown,
    /// Run now or later: worth all.
    Fresh,
    /// Run so many milliseconds ago.
    Aged { age_ms: u64 },
}

/// The features of a suggestion.
#[derive(Debug, Clone, Copy, PartialEq, Eq, Structural)]
pub struct RankingFeatures {
    pub prefix_exactness: Share,
    pub cwd_similarity: Share,
    pub path_exists: Share,
    pub recency: Recency,
    pub frequency: Share,
    pub last_command_transition: Share,
    pub success_bonus: Share,
}

impl RankingFeatures {
    /// Each share lies between nothing and all.
    pub open spec fn valid(self) -> bool {
        &&& self.prefix_exactness.valid()
        &&& self.cwd_similarity.valid()
        &&& self.path_exists.valid()
        &&& self.frequency.valid()
        &&& self.last_command_transition.valid()
        &&& self.success_bonus.valid()
    }
}

/// What stands at a path.
#[derive(Debug, Clone, Copy, PartialEq, Eq, Structural)]
pub enum PathKind {
    Directory,
    File,
    Other,
}

// ------------------------------------------------------------ command words

/// The first word of a text.
pub open spec fn first_word(s: Seq<char>) -> Option<Seq<char>> {
    if text::words(s).len() == 0 {
        None
    } else {
        Some(text::words(s)[0])
    }
}

/// The last word of a text, or nothing.
pub open spec fn last_word(s: Seq<char>) -> Seq<char> {
    if text::words(s).len() == 0 {
        Seq::empty()
    } else {
        text::words(s).last()
    }
}

/// The text of an optional string slice.
pub open spec fn slice_view(o: Option<&str>) -> Option<Seq<char>> {
    match o {
        Some(s) => Some(s@),
        None => None,
    }
}

/// The command of a command line: its first word.
pub fn extract_command(buffer: &str) -> (r: Option<&str>)
    ensures
        slice_view(r) == first_word(buffer@),
{
    let v = text::chars_of(buffer);
    let start: usize = text::leading_space(&v);
    proof {
        text::lemma_trim_start(v@);
        text::lemma_word_len(text::trim_start(v@));
    }
    if start == v.len() {
        return None;
    }
    let end: usize = text::word_end(&v, start);
    let word = buffer.substring_char(start, end);
    assert(word@ =~= text::trim_start(v@).take(text::word_len(text::trim_start(v@)) as int));
    Some(word)
}

/// The token under the cursor at the end of a command line: its last word.
pub fn extract_current_token(buffer: &str) -> (r: &str)
    ensures
        r@ == last_word(buffer@),
{
    let v = text::chars_of(buffer);
    let mut i: usize = 0;
    let mut start: usize = 0;
    let mut end: usize = 0;
    let ghost mut seen = Seq::<Seq<char>>::empty();
    assert(v@.skip(0) =~= v@);
    assert(seen + text::words(v@) =~= text::words(v@));
    loop
        invariant
            i <= v@.len(),
            v@ == buffer@,
            start <= end <= v@.len(),
            text::words(v@) == seen + text::words(v@.skip(i as int)),
            seen.len() > 0 ==> seen.last() == v@.subrange(start as int, end as int),
            seen.len() == 0 ==> start == end,
        decreases v@.len() - i,
    {
        let ghost rest = v@.skip(i as int);
        let tail = text::part(&v, i, v.len());
        assert(tail@ =~= rest);
        let next: usize = i + text::leading_space(&tail);
        assert(v@.skip(next as int) =~= text::trim_start(rest));
        if next == v.len() {
            assert(text::words(rest) =~= Seq::<Seq<char>>::empty());
            assert(seen + text::words(rest) =~= seen);
            let token = buffer.substring_char(start, end);
            assert(token@ =~= last_word(buffer@));
            return token;
        }
        proof {
            text::lemma_trim_start(rest);
            text::lemma_word_len(text::trim_start(rest));
        }
        start = next;
        end = text::word_end(&v, start);
        proof {
            let t = text::trim_start(rest);
            let word = v@.subrange(start as int, end as int);
            assert(word =~= t.take(text::word_len(t) as int));
            assert(t.skip(text::word_len(t) as int) =~= v@.skip(end as int));
            assert(seen.push(word) + text::words(v@.skip(end as int)) =~= seen + (seq![word]
                + text::words(v@.skip(end as int))));
            seen = seen.push(word);
        }
        i = end;
    }
}

/// The commands that take a directory.
pub open spec fn takes_directory(cmd: Seq<char>) -> bool {
    cmd == "cd"@ || cmd == "pushd"@ || cmd == "ls"@
}

/// The commands that take a file.
pub open spec fn takes_file(cmd: Seq<char>) -> bool {
    cmd == "vim"@ || cmd == "nvim"@ || cmd == "code"@ || cmd == "open"@ || cmd == "cat"@ || cmd
        == "less"@ || cmd == "head"@ || cmd == "tail"@
}

/// The commands that destroy or overwrite files.
pub open spec fn destroys(cmd: Seq<char>) -> bool {
    cmd == "rm"@ || cmd == "cp"@ || cmd == "mv"@
}

/// Whether a command expects a directory as its argument.
pub fn expects_directory(cmd: &str) -> (r: bool)
    ensures
        r == takes_directory(cmd@),
{
    let v = text::chars_of(cmd);
    text::is_str(&v, "cd") || text::is_str(&v, "pushd") || text::is_str(&v, "ls")
}

/// Whether a command expects a file as its argument.
pub fn expects_file(cmd: &str) -> (r: bool)
    ensures
        r == takes_file(cmd@),
{
    let v = text::chars_of(cmd);
    text::is_str(&v, "vim") || text::is_str(&v, "nvim") || text::is_str(&v, "code")
        || text::is_str(&v, "open") || text::is_str(&v, "cat") || text::is_str(&v, "less")
        || text::is_str(&v, "head") || text::is_str(&v, "tail")
}

/// Whether a command is suggested only with high confidence.
pub fn is_dangerous(cmd: &str) -> (r: bool)
    ensures
        r == destroys(cmd@),
{
    let v = text::chars_of(cmd);
    text::is_str(&v, "rm") || text::is_str(&v, "cp") || text::is_str(&v, "mv")
}

// ----------------------------------------------------------------- features

/// The number of bytes of a text in UTF-8.
pub open spec fn byte_len(s: Seq<char>) -> usize {
    vstd::utf8::encode_utf8(s).len() as usize
}

/// The part of a candidate that has been typed, by bytes.
pub open spec fn typed_share(candidate: Seq<char>, typed: Seq<char>) -> Share {
    if typed.len() > 0 && text::begins(candidate, typed) {
        Share {
            part: byte_len(typed) as u64,
            whole: if byte_len(candidate) > 1 {
                byte_len(candidate) as u64
            } else {
                1
            },
        }
    } else {
        Share::hundredths(0)
    }
}

/// The part of a candidate that has been typed; nothing where the candidate
/// does not begin with it.
pub fn prefix_exactness(candidate: &str, typed: &str) -> (r: Share)
    ensures
        r == typed_share(candidate@, typed@),
{
    if typed.is_empty() {
        return Share::percent(0);
    }
    let v = text::chars_of(candidate);
    if text::starts_with_str(&v, typed) {
        let n: usize = candidate.len();
        Share {
            part: typed.len() as u64,
            whole: if n > 1 {
                n as u64
            } else {
                1
            },
        }
    } else {
        Share::percent(0)
    }
}

/// How near two directories are: the same, one a prefix of the other, or neither.
pub open spec fn nearness(candidate_cwd: Seq<char>, current_cwd: Seq<char>) -> Share {
    if candidate_cwd == current_cwd {
        Share::hundredths(100)
    } else if text::begins(current_cwd, candidate_cwd) || text::begins(
        candidate_cwd,
        current_cwd,
    ) {
        Share::hundredths(50)
    } else {
        Share::hundredths(0)
    }
}

/// How near the directory of a candidate is to the current one.
pub fn cwd_similarity(candidate_cwd: &str, current_cwd: &str) -> (r: Share)
    ensures
        r == nearness(candidate_cwd@, current_cwd@),
{
    let a = text::chars_of(candidate_cwd);
    let b = text::chars_of(current_cwd);
    if text::same(&a, &b) {
        Share::percent(100)
    } else if text::starts_with(&b, &a) || text::starts_with(&a, &b) {
        Share::percent(50)
    } else {
        Share::percent(0)
    }
}

/// The age of something that happened at `then`.
pub open spec fn age(then: u64, now: u64) -> Recency {
    if then >= now {
        Recency::Fresh
    } else {
        Recency::Aged { age_ms: (now - then) as u64 }
    }
}

/// How long ago a candidate was run.
pub fn recency(candidate_ts: u64, now_ts: u64) -> (r: Recency)
    ensures
        r == age(candidate_ts, now_ts),
{
    if candidate_ts >= now_ts {
        Recency::Fresh
    } else {
        Recency::Aged { age_ms: now_ts - candidate_ts }
    }
}

/// The share of a hundred runs.
pub open spec fn run_share(count: u64) -> Share {
    Share::hundredths(
        if count < 100 {
            count
        } else {
            100
        },
    )
}

/// How often a candidate was run, up to a hundred times.
pub fn frequency(count: u64) -> (r: Share)
    ensures
        r == run_share(count),
{
    Share::percent(
        if count < 100 {
            count
        } else {
            100
        },
    )
}

/// What stands before the first white space of a command line.
pub open spec fn command_part(candidate: Seq<char>) -> Seq<char> {
    candidate.take(text::word_len(candidate) as int)
}

/// What stands behind the first white space of a command line, trimmed.
pub open spec fn argument_part(candidate: Seq<char>) -> Seq<char> {
    if text::word_len(candidate) < candidate.len() {
        text::trim(candidate.skip(text::word_len(candidate) as int + 1))
    } else {
        Seq::empty()
    }
}

/// The path that a command line names: the argument of a command that expects
/// a directory or a file, with a leading tilde replaced by the home directory
/// and taken from the current directory.
pub open spec fn named_path(
    candidate: Seq<char>,
    cwd: Seq<char>,
    home: Option<Seq<char>>,
) -> Option<Seq<char>> {
    let cmd = command_part(candidate);
    let arg = argument_part(candidate);
    if !takes_directory(cmd) && !takes_file(cmd) || arg.len() == 0 {
        None
    } else if arg[0] == '~' {
        match home {
            Some(h) => Some(h + arg.skip(1)),
            None => None,
        }
    } else {
        Some(paths::joined(cwd, arg))
    }
}

/// What a path that a command line names says for it: nothing where there is
/// no path or nothing stands there, all where it is what the command expects,
/// a little where it is something else.
pub open spec fn path_share(
    candidate: Seq<char>,
    cwd: Seq<char>,
    home: Option<Seq<char>>,
    found: Option<PathKind>,
) -> Share {
    let cmd = command_part(candidate);
    match found {
        Some(kind) if named_path(candidate, cwd, home) is Some => {
            if takes_directory(cmd) && kind == PathKind::Directory || takes_file(cmd) && kind
                == PathKind::File {
                Share::hundredths(100)
            } else {
                Share::hundredths(30)
            }
        },
        _ => Share::hundredths(0),
    }
}

/// The path to look at for a candidate, if there is one.
pub fn path_to_check(candidate: &str, cwd: &str, home: Option<&str>) -> (r: Option<String>)
    ensures
        text::option_view(r) == named_path(candidate@, cwd@, slice_view(home)),
{
    let v = text::chars_of(candidate);
    proof {
        text::lemma_word_len(v@);
        assert(v@.skip(0) =~= v@);
    }
    let n: usize = text::word_end(&v, 0);
    let head = text::part(&v, 0, n);
    let cmd = text::string_of(&head);
    assert(cmd@ =~= command_part(candidate@));
    if (!expects_directory(cmd.as_str()) && !expects_file(cmd.as_str())) || n == v.len() {
        return None;
    }
    let tail = text::part(&v, n + 1, v.len());
    assert(tail@ =~= v@.skip(n + 1));
    let arg = text::trimmed(&tail);
    if arg.len() == 0 {
        return None;
    }
    if arg[0] == '~' {
        match home {
            Some(h) => {
                let mut out = text::chars_of(h);
                let rest = text::part(&arg, 1, arg.len());
                assert(rest@ =~= arg@.skip(1));
                text::extend(&mut out, &rest);
                Some(text::string_of(&out))
            },
            None => None,
        }
    } else {
        let relative = text::string_of(&arg);
        Some(paths::join(cwd, relative.as_str()))
    }
}

/// What was found at the path of `path_to_check` says for a candidate.
pub fn path_exists_score(
    candidate: &str,
    cwd: &str,
    home: Option<&str>,
    found: Option<PathKind>,
) -> (r: Share)
    ensures
        r == path_share(candidate@, cwd@, slice_view(home), found),
{
    let kind = match found {
        Some(kind) => kind,
        None => return Share::percent(0),
    };
    if path_to_check(candidate, cwd, home).is_none() {
        return Share::percent(0);
    }
    let v = text::chars_of(candidate);
    proof {
        text::lemma_word_len(v@);
        assert(v@.skip(0) =~= v@);
    }
    let n: usize = text::word_end(&v, 0);
    let head = text::part(&v, 0, n);
    let cmd = text::string_of(&head);
    assert(cmd@ =~= command_part(candidate@));
    if (expects_directory(cmd.as_str()) && kind == PathKind::Directory) || (expects_file(
        cmd.as_str(),
    ) && kind == PathKind::File) {
        Share::percent(100)
    } else {
        Share::percent(30)
    }
}

/// The text is no longer than a machine can hold.
pub open spec fn fits(s: Seq<char>) -> bool {
    vstd::utf8::encode_utf8(s).len() <= usize::MAX
}

proof fn lemma_bytes_of_front(s: Seq<char>, n: int)
    requires
        0 <= n <= s.len(),
    ensures
        vstd::utf8::encode_utf8(s.take(n)).len() <= vstd::utf8::encode_utf8(s).len(),
        n < s.len() ==> vstd::utf8::encode_utf8(s.take(n)).len() < vstd::utf8::encode_utf8(
            s,
        ).len(),
    decreases s.len(),
{
    if s.len() > 0 {
        let first = vstd::utf8::encode_scalar(s[0] as u32);
        assert(first.len() > 0);
        if n > 0 {
            lemma_bytes_of_front(s.drop_first(), n - 1);
            assert(s.take(n).drop_first() =~= s.drop_first().take(n - 1));
        }
    }
}

/// The part that has been typed lies between nothing and all.
pub proof fn law_typed_share_valid(candidate: Seq<char>, typed: Seq<char>)
    requires
        fits(candidate),
    ensures
        typed_share(candidate, typed).valid(),
{
    if text::begins(candidate, typed) {
        lemma_bytes_of_front(candidate, typed.len() as int);
    }
}

/// To type more of a candidate speaks more for it.
pub proof fn law_typed_share_grows(candidate: Seq<char>, shorter: Seq<char>, longer: Seq<char>)
    requires
        fits(candidate),
        text::begins(candidate, longer),
        text::begins(longer, shorter),
        shorter.len() < longer.len(),
    ensures
        typed_share(candidate, shorter).part < typed_share(candidate, longer).part,
        shorter.len() > 0 ==> typed_share(candidate, shorter).whole == typed_share(
            candidate,
            longer,
        ).whole,
{
    lemma_bytes_of_front(candidate, longer.len() as int);
    lemma_bytes_of_front(longer, shorter.len() as int);
    assert(candidate.take(shorter.len() as int) =~= longer.take(shorter.len() as int));
}

// --------------------------------------------------------- dangerous commands

/// The candidate may be suggested: it is no dangerous command, or its score is
/// not below the threshold.
pub open spec fn trusted(c: SuggestionCandidate) -> bool {
    match first_word(c.text@) {
        Some(cmd) => destroys(cmd) ==> !(c.score.is_number() && c.score.level()
            < DANGEROUS_THRESHOLD_BITS),
        None => true,
    }
}

/// The test for candidates that may be suggested.
pub open spec fn is_trusted() -> spec_fn(SuggestionCandidate) -> bool {
    |c: SuggestionCandidate| trusted(c)
}

/// The candidates that may be suggested, in order.
pub open spec fn trusted_only(s: Seq<SuggestionCandidate>) -> Seq<SuggestionCandidate> {
    s.filter(is_trusted())
}

fn may_suggest(c: &SuggestionCandidate) -> (r: bool)
    ensures
        r == trusted(*c),
{
    match extract_command(c.text.as_str()) {
        Some(cmd) => !is_dangerous(cmd) || !c.score.is_below(DANGEROUS_THRESHOLD_BITS),
        None => true,
    }
}

/// Drops the dangerous commands whose score is too low.
pub fn apply_dangerous_filter(candidates: &mut Vec<SuggestionCandidate>)
    ensures
        final(candidates)@ == trusted_only(old(candidates)@),
{
    let mut all: Vec<SuggestionCandidate> = Vec::new();
    std::mem::swap(&mut all, candidates);
    let ghost before = all@;
    reveal(Seq::filter);
    for c in it: all
        invariant
            it.seq() == before,
            candidates@ == trusted_only(before.take(it.index() as int)),
    {
        proof {
            reveal(Seq::filter);
            let n = it.index() as int;
            assert(before.take(n + 1).drop_last() =~= before.take(n));
            assert(before.take(n + 1).last() == c);
        }
        if may_suggest(&c) {
            candidates.push(c);
        }
    }
    assert(before.take(before.len() as int) =~= before);
}

/// A dangerous command is one whose first word is `rm`, `cp` or `mv`. It is
/// dropped where its score is a number below 0.6; every other candidate stays,
/// in its place.
pub proof fn law_dangerous_need_more(s: Seq<SuggestionCandidate>, c: SuggestionCandidate)
    ensures
        ({
            let words = text::words(c.text@);
            let bits = c.score.bits;
            let dangerous = words.len() > 0 && (words[0] == "rm"@ || words[0] == "cp"@ || words[0]
                == "mv"@);
            let below = bits < 0x3F19_999A || 0x8000_0000 <= bits <= 0xFF80_0000;
            &&& trusted(c) <==> !(dangerous && below)
            &&& trusted_only(s.push(c)) == (if dangerous && below {
                trusted_only(s)
            } else {
                trusted_only(s).push(c)
            })
            &&& trusted_only(Seq::<SuggestionCandidate>::empty()) == Seq::<
                SuggestionCandidate,
            >::empty()
        }),
{
    reveal(Seq::filter);
    assert(s.push(c).drop_last() =~= s);
    assert(s.push(c).last() == c);
}

/// The first word of a text stands between the white space at its front and
/// the end of the text or further white space.
pub proof fn law_first_word(blank: Seq<char>, word: Seq<char>, rest: Seq<char>)
    requires
        forall|i: int| 0 <= i < blank.len() ==> text::is_space(#[trigger] blank[i]),
        text::is_word(word),
        rest.len() == 0 || text::is_space(rest[0]),
    ensures
        first_word(blank + word + rest) == Some(word),
        first_word(blank) is None,
{
    let front = blank + word;
    assert(text::open_ended(blank)) by {
        if blank.len() > 0 {
            assert(text::is_space(blank[blank.len() - 1]));
        }
    }
    text::law_word_added(blank, word);
    text::lemma_trim_start(blank);
    text::lemma_trimmed_is_space(blank);
    assert(text::words(blank).len() == 0) by {
        if text::trim_start(blank).len() > 0 {
            let i = blank.len() - text::trim_start(blank).len();
            assert(text::trim_start(blank)[0] == blank[i]);
        }
    }
    if rest.len() == 0 {
        assert(blank + word + rest =~= front);
    } else {
        text::law_words_apart(front, rest[0], rest.skip(1));
        assert(front + seq![rest[0]] + rest.skip(1) =~= blank + word + rest);
    }
}

/// The last word of a text is the word that it ends in, white space aside.
pub proof fn law_last_word(front: Seq<char>, word: Seq<char>, blank: Seq<char>)
    requires
        text::open_ended(front),
        text::is_word(word),
        forall|i: int| 0 <= i < blank.len() ==> text::is_space(#[trigger] blank[i]),
    ensures
        last_word(front + word + blank) == word,
        last_word(blank) == Seq::<char>::empty(),
    decreases blank.len(),
{
    text::law_word_added(front, word);
    if blank.len() == 0 {
        assert(front + word + blank =~= front + word);
        assert(blank =~= Seq::<char>::empty());
    } else {
        let less = blank.drop_last();
        assert forall|i: int| 0 <= i < less.len() implies text::is_space(#[trigger] less[i]) by {
            assert(less[i] == blank[i]);
        }
        law_last_word(front, word, less);
        let c = blank[blank.len() - 1];
        let none = Seq::<char>::empty();
        text::law_words_apart(front + word + less, c, none);
        assert(front + word + less + seq![c] + none =~= front + word + blank);
        text::law_word_alone(word);
        text::law_words_apart(less, c, none);
        assert(less + seq![c] + none =~= blank);
        assert(text::words(front + word + less) + text::words(none) =~= text::words(
            front + word + less,
        ));
        assert(text::words(less) + text::words(none) =~= text::words(less));
    }
}

/// What kind of argument a command takes.
pub proof fn law_known_commands(cmd: Seq<char>)
    ensures
        takes_directory(cmd) <==> seq!["cd"@, "pushd"@, "ls"@].contains(cmd),
        takes_file(cmd) <==> seq![
            "vim"@,
            "nvim"@,
            "code"@,
            "open"@,
            "cat"@,
            "less"@,
            "head"@,
            "tail"@,
        ].contains(cmd),
        destroys(cmd) <==> seq!["rm"@, "cp"@, "mv"@].contains(cmd),
{
    let dirs = seq!["cd"@, "pushd"@, "ls"@];
    assert(dirs[0] == "cd"@ && dirs[1] == "pushd"@ && dirs[2] == "ls"@);
    let files = seq![
        "vim"@,
        "nvim"@,
        "code"@,
        "open"@,
        "cat"@,
        "less"@,
        "head"@,
        "tail"@,
    ];
    assert(files[0] == "vim"@ && files[1] == "nvim"@ && files[2] == "code"@ && files[3] == "open"@
        && files[4] == "cat"@ && files[5] == "less"@ && files[6] == "head"@ && files[7]
        == "tail"@);
    let dangers = seq!["rm"@, "cp"@, "mv"@];
    assert(dangers[0] == "rm"@ && dangers[1] == "cp"@ && dangers[2] == "mv"@);
}

/// Of a candidate that goes on from what was typed, the bytes typed are the
/// part and its own bytes the whole; of any other, and where nothing was typed,
/// nothing counts.
pub proof fn law_typed_share(typed: Seq<char>, rest: Seq<char>, other: Seq<char>)
    requires
        typed.len() > 0,
        fits(typed + rest),
    ensures
        typed_share(typed + rest, typed).part == vstd::utf8::encode_utf8(typed).len(),
        typed_share(typed + rest, typed).whole == vstd::utf8::encode_utf8(typed + rest).len(),
        (forall|tail: Seq<char>| other != #[trigger] (typed + tail)) ==> typed_share(
            other,
            typed,
        ).part == 0,
        typed_share(other, Seq::<char>::empty()).part == 0,
        typed_share(other, typed).whole > 0,
{
    let whole = typed + rest;
    text::law_begins(other, typed, rest);
    assert(whole.take(typed.len() as int) =~= typed);
    lemma_bytes_of_front(whole, typed.len() as int);
    lemma_bytes_of_front(typed, 0);
}

/// Directories are nearest where they are the same, half as near where the path
/// of one begins with that of the other, and it does not matter which is which.
pub proof fn law_nearness(dir: Seq<char>, below: Seq<char>, a: Seq<char>, b: Seq<char>)
    ensures
        nearness(dir, dir) == (Share { part: 100, whole: 100 }),
        below.len() > 0 ==> nearness(dir, dir + below) == (Share { part: 50, whole: 100 }),
        nearness(a, b) == nearness(b, a),
        !text::begins(a, b) && !text::begins(b, a) ==> nearness(a, b) == (Share {
            part: 0,
            whole: 100,
        }),
{
    text::law_begins(a, dir, below);
    if below.len() > 0 {
        assert(dir.len() < (dir + below).len());
    }
    assert(a.take(a.len() as int) =~= a);
}

/// What happened `elapsed` ago is as old as that; what did not happen in the
/// past is fresh.
pub proof fn law_age(then: u64, elapsed: u64, earlier: u64)
    requires
        then + elapsed <= u64::MAX,
        earlier <= then,
    ensures
        elapsed > 0 ==> age(then, (then + elapsed) as u64) == (Recency::Aged { age_ms: elapsed }),
        age(then, earlier) == Recency::Fresh,
{
}

/// Each run counts a hundredth, up to a hundred runs.
pub proof fn law_frequency(count: u64)
    ensures
        run_share(count).whole == 100,
        run_share(count).part <= count,
        run_share(count).part <= 100,
        run_share(count).part == count || run_share(count).part == 100,
{
}

/// The path that a command line names is its argument taken from the current
/// directory, or from the home directory where a tilde stands for that; only
/// the argument of a command that takes a directory or a file is one.
pub proof fn law_named_path(
    cmd: Seq<char>,
    gap: Seq<char>,
    arg: Seq<char>,
    end: Seq<char>,
    cwd: Seq<char>,
    home: Option<Seq<char>>,
)
    requires
        text::is_word(cmd),
        gap.len() > 0,
        forall|i: int| 0 <= i < gap.len() ==> text::is_space(#[trigger] gap[i]),
        forall|i: int| 0 <= i < end.len() ==> text::is_space(#[trigger] end[i]),
        arg.len() > 0,
        !text::is_space(arg[0]),
        !text::is_space(arg.last()),
    ensures
        ({
            let line = cmd + gap + arg + end;
            let known = seq![
                "cd"@,
                "pushd"@,
                "ls"@,
                "vim"@,
                "nvim"@,
                "code"@,
                "open"@,
                "cat"@,
                "less"@,
                "head"@,
                "tail"@,
            ].contains(cmd);
            &&& !known ==> named_path(line, cwd, home) is None
            &&& named_path(cmd, cwd, home) is None
            &&& named_path(cmd + gap, cwd, home) is None
            &&& known && arg[0] == '~' ==> named_path(line, cwd, home) == (match home {
                Some(h) => Some(h + arg.skip(1)),
                None => None::<Seq<char>>,
            })
            &&& known && arg[0] == '/' ==> named_path(line, cwd, home) == Some(arg)
            &&& known && arg[0] != '~' && arg[0] != '/' && cwd.len() > 0 && cwd.last() != '/'
                ==> named_path(line, cwd, home) == Some(cwd + seq!['/'] + arg)
            &&& known && arg[0] != '~' && arg[0] != '/' ==> named_path(
                line,
                cwd.push('/'),
                home,
            ) == Some(cwd + seq!['/'] + arg)
        }),
{
    let line = cmd + gap + arg + end;
    let known = seq![
        "cd"@,
        "pushd"@,
        "ls"@,
        "vim"@,
        "nvim"@,
        "code"@,
        "open"@,
        "cat"@,
        "less"@,
        "head"@,
        "tail"@,
    ];
    assert(known[0] == "cd"@ && known[1] == "pushd"@ && known[2] == "ls"@ && known[3] == "vim"@
        && known[4] == "nvim"@ && known[5] == "code"@ && known[6] == "open"@ && known[7] == "cat"@
        && known[8] == "less"@ && known[9] == "head"@ && known[10] == "tail"@);
    assert(known.contains(cmd) <==> takes_directory(cmd) || takes_file(cmd));
    let n = cmd.len() as int;
    lemma_command_part(cmd, gap + arg + end);
    assert(line =~= cmd + (gap + arg + end));
    let tail = line.skip(n + 1);
    let blank = gap.skip(1);
    assert(tail =~= blank + arg + end);
    assert forall|i: int| 0 <= i < blank.len() implies text::is_space(#[trigger] blank[i]) by {
        assert(blank[i] == gap[i + 1]);
    }
    text::law_trim(blank, arg, end);
    assert(argument_part(line) == arg);
    lemma_command_part(cmd, Seq::empty());
    assert(cmd + Seq::<char>::empty() =~= cmd);
    lemma_command_part(cmd, gap);
    let none = Seq::<char>::empty();
    text::law_trim(blank, none, none);
    assert((cmd + gap).skip(n + 1) =~= blank + none + none);
    assert(cwd + seq!['/'] =~= cwd.push('/'));
    paths::law_join_is_below(cwd, arg);
}

proof fn lemma_command_part(cmd: Seq<char>, rest: Seq<char>)
    requires
        text::is_word(cmd),
        rest.len() > 0 ==> text::is_space(rest[0]),
    ensures
        text::word_len(cmd + rest) == cmd.len(),
        command_part(cmd + rest) == cmd,
{
    let line = cmd + rest;
    assert forall|i: int| 0 <= i < cmd.len() implies !text::is_space(#[trigger] line[i]) by {
        assert(line[i] == cmd[i]);
    }
    text::lemma_word_len_is(line, cmd.len() as int);
    assert(line.take(cmd.len() as int) =~= cmd);
}

/// A path that is there speaks for its command line: fully where it is what the
/// command takes, a little where it is not, and nothing is said by a path that
/// is not there.
pub proof fn law_path_share(
    cmd: Seq<char>,
    rest: Seq<char>,
    cwd: Seq<char>,
    home: Option<Seq<char>>,
    kind: PathKind,
)
    requires
        text::is_word(cmd),
        rest.len() > 0 ==> text::is_space(rest[0]),
    ensures
        ({
            let line = cmd + rest;
            let there = path_share(line, cwd, home, Some(kind));
            let dir = cmd == "cd"@ || cmd == "pushd"@ || cmd == "ls"@;
            let right = dir && kind == PathKind::Directory || !dir && kind == PathKind::File;
            &&& path_share(line, cwd, home, None).part == 0
            &&& named_path(line, cwd, home) is None ==> there.part == 0
            &&& named_path(line, cwd, home) is Some ==> there == (Share {
                part: if right {
                    100
                } else {
                    30
                },
                whole: 100,
            })
        }),
{
    lemma_command_part(cmd, rest);
    reveal_strlit("cd");
    reveal_strlit("pushd");
    reveal_strlit("ls");
    reveal_strlit("vim");
    reveal_strlit("nvim");
    reveal_strlit("code");
    reveal_strlit("open");
    reveal_strlit("cat");
    reveal_strlit("less");
    reveal_strlit("head");
    reveal_strlit("tail");
    if takes_directory(cmd) {
        assert(!takes_file(cmd)) by {
            if takes_file(cmd) {
                assert(cmd[0] == 'v' || cmd[0] == 'n' || cmd[0] == 'c' || cmd[0] == 'o' || cmd[0]
                    == 'l' || cmd[0] == 'h' || cmd[0] == 't');
                assert(cmd.len() >= 3);
                assert(cmd == "pushd"@);
                assert(cmd[0] == 'p');
            }
        }
    }
}

} // verus!
