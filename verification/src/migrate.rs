//! Setting up `.zshrc`: taking zsh-autosuggestions out and putting the loader in.
use vstd::prelude::*;
use crate::number;
use crate::paths;
use crate::ranking;
use crate::text;

verus! {

/// The line that loads the plugin.
pub const SHELLSUGGEST_INIT_LINE: &'static str = "eval \"$(shellsuggest init zsh)\"";

/// The comment above the loader that an installation adds.
pub const INIT_HEADER: &'static str = "# Added by `shellsuggest init`";

/// The comment above the loader that a migration adds.
pub const MIGRATION_HEADER: &'static str = "# Added by `shellsuggest migrate zsh-autosuggestions`";

/// What an installation does.
#[derive(Debug, Clone, Copy, PartialEq, Eq, Structural)]
pub enum InitAction {
    AlreadyInstalled,
    CreateZshrc,
    AppendInit,
    MigrateFromZshAutosuggestions,
}

impl InitAction {
    /// The name of the action.
    pub open spec fn text(self) -> Seq<char> {
        match self {
            InitAction::AlreadyInstalled => "already-installed"@,
            InitAction::CreateZshrc => "create-zshrc"@,
            InitAction::AppendInit => "append-init"@,
            InitAction::MigrateFromZshAutosuggestions => "migrate-zsh-autosuggestions"@,
        }
    }

    /// The name of the action.
    pub fn as_str(&self) -> (r: &'static str)
        ensures
            r@ == self.text(),
    {
        match self {
            InitAction::AlreadyInstalled => "already-installed",
            InitAction::CreateZshrc => "create-zshrc",
            InitAction::AppendInit => "append-init",
            InitAction::MigrateFromZshAutosuggestions => "migrate-zsh-autosuggestions",
        }
    }
}

/// What a migration does to a file.
#[derive(Debug, Clone, PartialEq, Eq)]
pub struct MigrationReport {
    pub changed: bool,
    pub disabled_lines: usize,
    pub removed_plugin_tokens: usize,
    pub added_init: bool,
    pub warnings: Vec<String>,
    pub updated_contents: String,
}

/// What an installation does to a file.
#[derive(Debug, Clone, PartialEq, Eq)]
pub struct InitReport {
    pub action: InitAction,
    pub changed: bool,
    pub warnings: Vec<String>,
    pub updated_contents: String,
    pub migration: Option<MigrationReport>,
}

/// An installation that was carried out or previewed.
#[derive(Debug, Clone, PartialEq, Eq)]
pub struct AppliedInit {
    pub zshrc_path: String,
    pub backup_path: Option<String>,
    pub report: InitReport,
}

/// A migration that was carried out or previewed.
#[derive(Debug, Clone, PartialEq, Eq)]
pub struct AppliedMigration {
    pub zshrc_path: String,
    pub backup_path: Option<String>,
    pub report: MigrationReport,
}

/// The contents of a `MigrationReport`.
#[verifier::ext_equal]
pub struct MigrationView {
    pub changed: bool,
    pub disabled_lines: nat,
    pub removed_plugin_tokens: nat,
    pub added_init: bool,
    pub warnings: Seq<Seq<char>>,
    pub updated_contents: Seq<char>,
}

/// The contents of an `InitReport`.
#[verifier::ext_equal]
pub struct InitView {
    pub action: InitAction,
    pub changed: bool,
    pub warnings: Seq<Seq<char>>,
    pub updated_contents: Seq<char>,
    pub migration: Option<MigrationView>,
}

impl View for MigrationReport {
    type V = MigrationView;

    open spec fn view(&self) -> MigrationView {
        MigrationView {
            changed: self.changed,
            disabled_lines: self.disabled_lines as nat,
            removed_plugin_tokens: self.removed_plugin_tokens as nat,
            added_init: self.added_init,
            warnings: text::string_views(self.warnings@),
            updated_contents: self.updated_contents@,
        }
    }
}

impl View for InitReport {
    type V = InitView;

    open spec fn view(&self) -> InitView {
        InitView {
            action: self.action,
            changed: self.changed,
            warnings: text::string_views(self.warnings@),
            updated_contents: self.updated_contents@,
            migration: match self.migration {
                Some(m) => Some(m@),
                None => None,
            },
        }
    }
}

// -------------------------------------------------------------------- lines

/// The line is a comment.
pub open spec fn is_comment(line: Seq<char>) -> bool {
    let t = text::trim_start(line);
    t.len() > 0 && t[0] == '#'
}

/// The line loads the plugin.
pub open spec fn loads_shellsuggest(line: Seq<char>) -> bool {
    let t = text::trim_start(line);
    !is_comment(line) && (text::has(t, "shellsuggest init zsh"@) || text::has(
        t,
        "shellsuggest.plugin.zsh"@,
    ))
}

/// Any other word than the name of the plugin that is taken out.
pub open spec fn other_plugin() -> spec_fn(Seq<char>) -> bool {
    |word: Seq<char>| word != "zsh-autosuggestions"@
}

/// What stands between the first opening and the last closing bracket of a
/// line that sets the plugins: the position of the one and of the other.
pub open spec fn plugin_brackets(line: Seq<char>) -> Option<(int, int)> {
    let open = text::first_at(line, '(');
    let close = text::last_at(line, ')');
    if text::begins(text::trim_start(line), "plugins="@) && open < line.len() && open < close {
        Some((open, close))
    } else {
        None
    }
}

/// The line without the plugin, where it sets the plugins and names it.
pub open spec fn without_plugin(line: Seq<char>) -> Option<Seq<char>> {
    match plugin_brackets(line) {
        Some((open, close)) => {
            let names = text::words(line.subrange(open + 1, close));
            let kept = names.filter(other_plugin());
            if kept.len() == names.len() {
                None
            } else {
                Some(line.take(open + 1) + text::join(kept, " "@) + line.skip(close))
            }
        },
        None => None,
    }
}

/// The line has to do with zsh-autosuggestions: it is its name alone, or holds
/// it somewhere.
pub open spec fn mentions_plugin(line: Seq<char>) -> bool {
    let t = text::trim_start(line);
    text::trim(t.take(text::first_at(t, '#'))) == "zsh-autosuggestions"@ || text::has(
        t,
        "zsh-autosuggestions"@,
    )
}

/// The line turned into a comment.
pub open spec fn disabled(line: Seq<char>) -> Seq<char> {
    let body = text::trim_start(line);
    line.take(line.len() - body.len()) + "# disabled by shellsuggest migrate: "@ + text::trim_end(
        body,
    )
}

/// A plugin name is taken out of the line.
pub open spec fn is_rewritten(line: Seq<char>) -> bool {
    !is_comment(line) && without_plugin(line) is Some
}

/// The line is turned into a comment.
pub open spec fn is_disabled(line: Seq<char>) -> bool {
    !is_comment(line) && without_plugin(line) is None && mentions_plugin(line)
}

/// The line after the migration.
pub open spec fn migrated_line(line: Seq<char>) -> Seq<char> {
    if is_rewritten(line) {
        without_plugin(line)->0
    } else if is_disabled(line) {
        disabled(line)
    } else {
        line
    }
}

/// The lines after the migration.
pub open spec fn migrated_lines(lines: Seq<Seq<char>>) -> Seq<Seq<char>> {
    lines.map_values(|line: Seq<char>| migrated_line(line))
}

/// How many lines have a property.
pub open spec fn count(lines: Seq<Seq<char>>, p: spec_fn(Seq<char>) -> bool) -> nat
    decreases lines.len(),
{
    if lines.len() == 0 {
        0
    } else {
        count(lines.drop_last(), p) + if p(lines.last()) {
            1nat
        } else {
            0nat
        }
    }
}

/// Some line has a property.
pub open spec fn any(lines: Seq<Seq<char>>, p: spec_fn(Seq<char>) -> bool) -> bool {
    exists|i: int| 0 <= i < lines.len() && p(#[trigger] lines[i])
}

/// The test for lines from which a plugin name is taken out.
pub open spec fn rewrites() -> spec_fn(Seq<char>) -> bool {
    |line: Seq<char>| is_rewritten(line)
}

/// The test for lines that are turned into comments.
pub open spec fn disables() -> spec_fn(Seq<char>) -> bool {
    |line: Seq<char>| is_disabled(line)
}

/// The test for lines that load the plugin.
pub open spec fn loads() -> spec_fn(Seq<char>) -> bool {
    |line: Seq<char>| loads_shellsuggest(line)
}

/// The test for lines, comments aside, that hold a text.
pub open spec fn sets(name: Seq<char>) -> spec_fn(Seq<char>) -> bool {
    |line: Seq<char>| !is_comment(line) && text::has(text::trim_start(line), name)
}

// ----------------------------------------------------------------- warnings

/// Some line, comments aside, changes the widgets of zsh-autosuggestions.
pub open spec fn sets_widgets(lines: Seq<Seq<char>>) -> bool {
    any(lines, sets("ZSH_AUTOSUGGEST_ACCEPT_WIDGETS"@)) || any(
        lines,
        sets("ZSH_AUTOSUGGEST_CLEAR_WIDGETS"@),
    ) || any(lines, sets("ZSH_AUTOSUGGEST_EXECUTE_WIDGETS"@)) || any(
        lines,
        sets("ZSH_AUTOSUGGEST_PARTIAL_ACCEPT_WIDGETS"@),
    ) || any(lines, sets("ZSH_AUTOSUGGEST_IGNORE_WIDGETS"@))
}

/// A warning, if there is cause for it.
pub open spec fn warn_if(cause: bool, warning: Seq<char>) -> Seq<Seq<char>> {
    if cause {
        seq![warning]
    } else {
        Seq::empty()
    }
}

/// The warnings for settings that need a look, each once, in the order of
/// their texts.
pub open spec fn warnings_for(lines: Seq<Seq<char>>) -> Seq<Seq<char>> {
    warn_if(
        any(lines, sets("ZSH_AUTOSUGGEST_COMPLETION_IGNORE"@)),
        "remove `ZSH_AUTOSUGGEST_COMPLETION_IGNORE` manually: shellsuggest does not source completion-based suggestions."@,
    ) + warn_if(
        any(lines, sets("ZSH_AUTOSUGGEST_STRATEGY"@)),
        "review `ZSH_AUTOSUGGEST_STRATEGY`: shellsuggest uses its own ranking pipeline instead of zsh-autosuggestions strategies."@,
    ) + warn_if(
        sets_widgets(lines),
        "review custom `ZSH_AUTOSUGGEST_*_WIDGETS`: shellsuggest keeps its own widget wrapper set."@,
    )
}

// ----------------------------------------------------------------- contents

/// The lines as one text, the last with its end.
pub open spec fn text_of_lines(lines: Seq<Seq<char>>) -> Seq<char> {
    let body = text::join(lines, "\n"@);
    if body.len() == 0 {
        body
    } else {
        body.push('\n')
    }
}

/// The text with plain line ends, the last line with its end.
pub open spec fn normalized(contents: Seq<char>) -> Seq<char> {
    if contents.len() == 0 {
        contents
    } else {
        text::join(text::lines(contents), "\n"@).push('\n')
    }
}

/// The lines with the loader behind them, apart from what comes before.
pub open spec fn with_loader(lines: Seq<Seq<char>>, header: Seq<char>) -> Seq<Seq<char>> {
    let apart = if lines.len() > 0 && text::trim(lines.last()).len() > 0 {
        lines.push(Seq::empty())
    } else {
        lines
    };
    apart.push(header).push(SHELLSUGGEST_INIT_LINE@)
}

/// What a migration does.
pub open spec fn migration_of(contents: Seq<char>) -> MigrationView {
    let lines = text::lines(contents);
    let removed = count(lines, rewrites());
    let disabled = count(lines, disables());
    let added_init = (removed > 0 || disabled > 0) && !any(lines, loads());
    let updated = text_of_lines(
        if added_init {
            with_loader(migrated_lines(lines), MIGRATION_HEADER@)
        } else {
            migrated_lines(lines)
        },
    );
    MigrationView {
        changed: updated != normalized(contents),
        disabled_lines: disabled,
        removed_plugin_tokens: removed,
        added_init,
        warnings: warnings_for(lines),
        updated_contents: updated,
    }
}

/// What an installation does.
pub open spec fn init_of(contents: Seq<char>, file_exists: bool) -> InitView {
    let m = migration_of(contents);
    let lines = text::lines(contents);
    if m.disabled_lines > 0 || m.removed_plugin_tokens > 0 {
        InitView {
            action: InitAction::MigrateFromZshAutosuggestions,
            changed: m.changed,
            warnings: m.warnings,
            updated_contents: m.updated_contents,
            migration: Some(m),
        }
    } else if any(lines, loads()) {
        InitView {
            action: InitAction::AlreadyInstalled,
            changed: false,
            warnings: m.warnings,
            updated_contents: normalized(contents),
            migration: None,
        }
    } else {
        let updated = text_of_lines(with_loader(lines, INIT_HEADER@));
        InitView {
            action: if file_exists {
                InitAction::AppendInit
            } else {
                InitAction::CreateZshrc
            },
            changed: updated != normalized(contents),
            warnings: m.warnings,
            updated_contents: updated,
            migration: None,
        }
    }
}

// --------------------------------------------------------------------- code

fn comment(trimmed: &Vec<char>) -> (r: bool)
    ensures
        r == (trimmed@.len() > 0 && trimmed@[0] == '#'),
{
    trimmed.len() > 0 && trimmed[0] == '#'
}

fn loader(line: &Vec<char>) -> (r: bool)
    ensures
        r == loads_shellsuggest(line@),
{
    let t = text::trimmed_start(line);
    !comment(&t) && (text::contains(&t, "shellsuggest init zsh") || text::contains(
        &t,
        "shellsuggest.plugin.zsh",
    ))
}

fn holds(line: &Vec<char>, name: &str) -> (r: bool)
    ensures
        r == sets(name@)(line@),
{
    let t = text::trimmed_start(line);
    !comment(&t) && text::contains(&t, name)
}

fn any_holds(lines: &Vec<Vec<char>>, name: &str) -> (r: bool)
    ensures
        r == any(text::views(lines@), sets(name@)),
{
    let ghost v = text::views(lines@);
    let mut i: usize = 0;
    while i < lines.len()
        invariant
            i <= lines@.len(),
            v == text::views(lines@),
            forall|k: int| 0 <= k < i ==> !sets(name@)(#[trigger] v[k]),
        decreases lines@.len() - i,
    {
        assert(v[i as int] == lines@[i as int]@);
        if holds(&lines[i], name) {
            return true;
        }
        i += 1;
    }
    false
}

fn any_loads(lines: &Vec<Vec<char>>) -> (r: bool)
    ensures
        r == any(text::views(lines@), loads()),
{
    let ghost v = text::views(lines@);
    let mut i: usize = 0;
    while i < lines.len()
        invariant
            i <= lines@.len(),
            v == text::views(lines@),
            forall|k: int| 0 <= k < i ==> !loads()(#[trigger] v[k]),
        decreases lines@.len() - i,
    {
        assert(v[i as int] == lines@[i as int]@);
        if loader(&lines[i]) {
            return true;
        }
        i += 1;
    }
    false
}

fn collect_warnings(lines: &Vec<Vec<char>>) -> (r: Vec<String>)
    ensures
        text::string_views(r@) == warnings_for(text::views(lines@)),
{
    let mut out: Vec<String> = Vec::new();
    if any_holds(lines, "ZSH_AUTOSUGGEST_COMPLETION_IGNORE") {
        out.push(
            text::copy_str(
                "remove `ZSH_AUTOSUGGEST_COMPLETION_IGNORE` manually: shellsuggest does not source completion-based suggestions.",
            ),
        );
    }
    if any_holds(lines, "ZSH_AUTOSUGGEST_STRATEGY") {
        out.push(
            text::copy_str(
                "review `ZSH_AUTOSUGGEST_STRATEGY`: shellsuggest uses its own ranking pipeline instead of zsh-autosuggestions strategies.",
            ),
        );
    }
    if any_holds(lines, "ZSH_AUTOSUGGEST_ACCEPT_WIDGETS") || any_holds(
        lines,
        "ZSH_AUTOSUGGEST_CLEAR_WIDGETS",
    ) || any_holds(lines, "ZSH_AUTOSUGGEST_EXECUTE_WIDGETS") || any_holds(
        lines,
        "ZSH_AUTOSUGGEST_PARTIAL_ACCEPT_WIDGETS",
    ) || any_holds(lines, "ZSH_AUTOSUGGEST_IGNORE_WIDGETS") {
        out.push(
            text::copy_str(
                "review custom `ZSH_AUTOSUGGEST_*_WIDGETS`: shellsuggest keeps its own widget wrapper set.",
            ),
        );
    }
    assert(text::string_views(out@) =~= warnings_for(text::views(lines@)));
    out
}

fn kept_names(names: &Vec<Vec<char>>) -> (r: Vec<Vec<char>>)
    ensures
        text::views(r@) == text::views(names@).filter(other_plugin()),
{
    let ghost v = text::views(names@);
    let mut out: Vec<Vec<char>> = Vec::new();
    let mut i: usize = 0;
    proof {
        reveal(Seq::filter);
        assert(text::views(out@) =~= v.take(0).filter(other_plugin()));
    }
    while i < names.len()
        invariant
            i <= names@.len(),
            v == text::views(names@),
            text::views(out@) == v.take(i as int).filter(other_plugin()),
        decreases names@.len() - i,
    {
        proof {
            reveal(Seq::filter);
            assert(v.take(i + 1).drop_last() =~= v.take(i as int));
            assert(v.take(i + 1).last() == names@[i as int]@);
        }
        if !text::is_str(&names[i], "zsh-autosuggestions") {
            let name = text::part(&names[i], 0, names[i].len());
            assert(name@ =~= names@[i as int]@);
            assert(text::views(out@.push(name)) =~= text::views(out@).push(name@));
            out.push(name);
        }
        i += 1;
    }
    assert(v.take(i as int) =~= v);
    out
}

fn remove_plugin_token_from_assignment(line: &Vec<char>) -> (r: Option<Vec<char>>)
    ensures
        match r {
            Some(l) => without_plugin(line@) == Some(l@),
            None => without_plugin(line@) is None,
        },
{
    let t = text::trimmed_start(line);
    if !text::starts_with_str(&t, "plugins=") {
        return None;
    }
    let len: usize = line.len();
    let open: usize = text::find(line, '(');
    if open == len {
        return None;
    }
    let close: usize = match text::rfind(line, ')') {
        Some(n) => n,
        None => {
            proof {
                text::lemma_first_at(line@, '(');
            }
            return None;
        },
    };
    if close <= open {
        return None;
    }
    let inner = text::part(line, open + 1, close);
    let names = text::words_of(&inner);
    let kept = kept_names(&names);
    assert(text::views(kept@).len() == kept@.len());
    assert(text::views(names@).len() == names@.len());
    if kept.len() == names.len() {
        return None;
    }
    let mut out = text::part(line, 0, open + 1);
    let list = text::joined(&kept, " ");
    let after = text::part(line, close, len);
    text::extend(&mut out, &list);
    text::extend(&mut out, &after);
    assert(line@.take(open + 1) =~= line@.subrange(0, open + 1));
    assert(line@.skip(close as int) =~= line@.subrange(close as int, len as int));
    Some(out)
}

fn mentions(line: &Vec<char>) -> (r: bool)
    ensures
        r == mentions_plugin(line@),
{
    let t = text::trimmed_start(line);
    let hash: usize = text::find(&t, '#');
    let front = text::part(&t, 0, hash);
    assert(front@ =~= t@.take(hash as int));
    let name = text::trimmed(&front);
    text::is_str(&name, "zsh-autosuggestions") || text::contains(&t, "zsh-autosuggestions")
}

fn comment_out_line(line: &Vec<char>) -> (r: Vec<char>)
    ensures
        r@ == disabled(line@),
{
    let indent: usize = text::leading_space(line);
    proof {
        text::lemma_trim_start(line@);
    }
    let body = text::part(line, indent, line.len());
    assert(body@ =~= text::trim_start(line@));
    let body_end = text::trimmed_end(&body);
    let mut out = text::part(line, 0, indent);
    text::extend_str(&mut out, "# disabled by shellsuggest migrate: ");
    text::extend(&mut out, &body_end);
    assert(line@.take(indent as int) =~= line@.subrange(0, indent as int));
    out
}

fn normalize_lines(lines: &Vec<Vec<char>>) -> (r: Vec<char>)
    ensures
        r@ == text_of_lines(text::views(lines@)),
{
    let mut out = text::joined(lines, "\n");
    if out.len() > 0 {
        out.push('\n');
    }
    out
}

fn normalize_text(contents: &Vec<char>) -> (r: Vec<char>)
    ensures
        r@ == normalized(contents@),
{
    if contents.len() == 0 {
        return Vec::new();
    }
    let lines = text::lines_of(contents);
    let mut out = text::joined(&lines, "\n");
    out.push('\n');
    out
}

fn append_loader(lines: Vec<Vec<char>>, header: &str) -> (r: Vec<Vec<char>>)
    ensures
        text::views(r@) == with_loader(text::views(lines@), header@),
{
    let ghost before = text::views(lines@);
    let mut lines = lines;
    let n: usize = lines.len();
    if n > 0 {
        let last = text::trimmed(&lines[n - 1]);
        assert(before.last() == lines@[n - 1]@);
        if last.len() > 0 {
            let blank: Vec<char> = Vec::new();
            assert(blank@ =~= Seq::<char>::empty());
            assert(text::views(lines@.push(blank)) =~= before.push(Seq::empty()));
            lines.push(blank);
        }
    }
    let ghost apart = text::views(lines@);
    lines.push(text::chars_of(header));
    lines.push(text::chars_of(SHELLSUGGEST_INIT_LINE));
    assert(text::views(lines@) =~= apart.push(header@).push(SHELLSUGGEST_INIT_LINE@));
    lines
}

/// Takes zsh-autosuggestions out of the contents of a `.zshrc`: its name out of
/// the plugins, other lines that load it into comments, and, where anything was
/// taken out and the loader is not there yet, the loader in.
pub fn migrate_zsh_autosuggestions(contents: &str) -> (r: MigrationReport)
    ensures
        r@ == migration_of(contents@),
{
    let all = text::chars_of(contents);
    let lines = text::lines_of(&all);
    let ghost v = text::views(lines@);
    let mut updated: Vec<Vec<char>> = Vec::new();
    let mut disabled_lines: usize = 0;
    let mut removed_plugin_tokens: usize = 0;
    let mut i: usize = 0;
    assert(text::views(updated@) =~= migrated_lines(v.take(0)));
    while i < lines.len()
        invariant
            i <= lines@.len(),
            v == text::views(lines@),
            text::views(updated@) == migrated_lines(v.take(i as int)),
            disabled_lines == count(v.take(i as int), disables()),
            removed_plugin_tokens == count(v.take(i as int), rewrites()),
            disabled_lines <= i,
            removed_plugin_tokens <= i,
        decreases lines@.len() - i,
    {
        let line = &lines[i];
        proof {
            assert(v.take(i + 1).drop_last() =~= v.take(i as int));
            assert(v.take(i + 1).last() == line@);
            assert(migrated_lines(v.take(i + 1)) =~= migrated_lines(v.take(i as int)).push(
                migrated_line(line@),
            ));
        }
        let t = text::trimmed_start(line);
        let next: Vec<char>;
        if comment(&t) {
            next = text::part(line, 0, line.len());
            assert(next@ =~= line@);
        } else {
            match remove_plugin_token_from_assignment(line) {
                Some(l) => {
                    removed_plugin_tokens += 1;
                    next = l;
                },
                None => {
                    if mentions(line) {
                        disabled_lines += 1;
                        next = comment_out_line(line);
                    } else {
                        next = text::part(line, 0, line.len());
                        assert(next@ =~= line@);
                    }
                },
            }
        }
        assert(text::views(updated@.push(next)) =~= text::views(updated@).push(next@));
        updated.push(next);
        i += 1;
    }
    assert(v.take(i as int) =~= v);
    let added_init: bool = (removed_plugin_tokens > 0 || disabled_lines > 0) && !any_loads(&lines);
    if added_init {
        updated = append_loader(updated, MIGRATION_HEADER);
    }
    let updated_contents = normalize_lines(&updated);
    let plain = normalize_text(&all);
    let r = MigrationReport {
        changed: !text::same(&updated_contents, &plain),
        disabled_lines,
        removed_plugin_tokens,
        added_init,
        warnings: collect_warnings(&lines),
        updated_contents: text::string_of(&updated_contents),
    };
    assert(r@ =~= migration_of(contents@));
    r
}

fn copy_warnings(warnings: &Vec<String>) -> (r: Vec<String>)
    ensures
        text::string_views(r@) == text::string_views(warnings@),
{
    let mut out: Vec<String> = Vec::new();
    let mut i: usize = 0;
    while i < warnings.len()
        invariant
            i <= warnings@.len(),
            out@ == warnings@.take(i as int),
        decreases warnings@.len() - i,
    {
        let w = warnings[i].clone();
        assert(warnings@.take(i + 1) =~= warnings@.take(i as int).push(w));
        out.push(w);
        i += 1;
    }
    assert(warnings@.take(i as int) =~= warnings@);
    out
}

/// Plans an installation into a `.zshrc` with the given contents: a migration
/// where zsh-autosuggestions is active, nothing where the loader is there, else
/// the loader at the end.
pub fn plan_zshrc_init(contents: &str, file_exists: bool) -> (r: InitReport)
    ensures
        r@ == init_of(contents@, file_exists),
{
    let migration = migrate_zsh_autosuggestions(contents);
    if migration.disabled_lines > 0 || migration.removed_plugin_tokens > 0 {
        return InitReport {
            action: InitAction::MigrateFromZshAutosuggestions,
            changed: migration.changed,
            warnings: copy_warnings(&migration.warnings),
            updated_contents: migration.updated_contents.clone(),
            migration: Some(migration),
        };
    }
    let all = text::chars_of(contents);
    let plain = normalize_text(&all);
    let lines = text::lines_of(&all);
    if any_loads(&lines) {
        return InitReport {
            action: InitAction::AlreadyInstalled,
            changed: false,
            warnings: migration.warnings,
            updated_contents: text::string_of(&plain),
            migration: None,
        };
    }
    let with = append_loader(lines, INIT_HEADER);
    let updated = normalize_lines(&with);
    InitReport {
        action: if file_exists {
            InitAction::AppendInit
        } else {
            InitAction::CreateZshrc
        },
        changed: !text::same(&updated, &plain),
        warnings: migration.warnings,
        updated_contents: text::string_of(&updated),
        migration: None,
    }
}

// -------------------------------------------------------------------- files

/// Why nothing is done.
#[derive(Debug, Clone, PartialEq, Eq)]
pub enum MigrateError {
    /// There is no file at the path.
    NotFound { path: String },
    /// The clock is set to a time before 1970.
    ClockBeforeEpoch,
    /// The path does not end in a file name.
    NoFileName,
}

/// The contents of a `MigrateError`.
pub enum MigrateErrorView {
    NotFound { path: Seq<char> },
    ClockBeforeEpoch,
    NoFileName,
}

impl View for MigrateError {
    type V = MigrateErrorView;

    open spec fn view(&self) -> MigrateErrorView {
        match *self {
            MigrateError::NotFound { path } => MigrateErrorView::NotFound { path: path@ },
            MigrateError::ClockBeforeEpoch => MigrateErrorView::ClockBeforeEpoch,
            MigrateError::NoFileName => MigrateErrorView::NoFileName,
        }
    }
}

impl MigrateError {
    /// The reason as text.
    pub open spec fn text(self) -> Seq<char> {
        match self@ {
            MigrateErrorView::NotFound { path } => "zshrc not found at "@ + path,
            MigrateErrorView::ClockBeforeEpoch => "system time is before unix epoch"@,
            MigrateErrorView::NoFileName => "zshrc path is missing a file name"@,
        }
    }

    /// The reason as text.
    pub fn to_string(&self) -> (r: String)
        ensures
            r@ == self.text(),
    {
        match self {
            MigrateError::NotFound { path } => {
                let mut out = text::chars_of("zshrc not found at ");
                text::extend_str(&mut out, path.as_str());
                text::string_of(&out)
            },
            MigrateError::ClockBeforeEpoch => text::copy_str("system time is before unix epoch"),
            MigrateError::NoFileName => text::copy_str("zshrc path is missing a file name"),
        }
    }
}

/// A step to be carried out on the file system.
#[derive(Debug, Clone, PartialEq, Eq)]
pub enum FileStep {
    /// Write the original contents to a backup.
    Backup { path: String, contents: String },
    /// Create a directory and those above it.
    CreateDir { path: String },
    /// Write the new contents.
    Update { path: String, contents: String },
}

/// The contents of a `FileStep`.
pub enum FileStepView {
    Backup { path: Seq<char>, contents: Seq<char> },
    CreateDir { path: Seq<char> },
    Update { path: Seq<char>, contents: Seq<char> },
}

impl View for FileStep {
    type V = FileStepView;

    open spec fn view(&self) -> FileStepView {
        match *self {
            FileStep::Backup { path, contents } => FileStepView::Backup {
                path: path@,
                contents: contents@,
            },
            FileStep::CreateDir { path } => FileStepView::CreateDir { path: path@ },
            FileStep::Update { path, contents } => FileStepView::Update {
                path: path@,
                contents: contents@,
            },
        }
    }
}

/// The contents of a list of steps.
pub open spec fn step_views(s: Seq<FileStep>) -> Seq<FileStepView> {
    s.map_values(|step: FileStep| step@)
}

/// A migration and the steps that carry it out.
#[derive(Debug, Clone)]
pub struct PlannedMigration {
    pub applied: AppliedMigration,
    pub steps: Vec<FileStep>,
}

/// An installation and the steps that carry it out.
#[derive(Debug, Clone)]
pub struct PlannedInit {
    pub applied: AppliedInit,
    pub steps: Vec<FileStep>,
}

/// Where the `.zshrc` is: in the directory for zsh's files, where one is named,
/// else in the home directory.
pub open spec fn zshrc_path(zdotdir: Option<Seq<char>>, home: Option<Seq<char>>) -> Option<
    Seq<char>,
> {
    match zdotdir {
        Some(dir) if text::trim(dir).len() > 0 => Some(paths::joined(text::trim(dir), ".zshrc"@)),
        _ => match home {
            Some(h) => Some(paths::joined(h, ".zshrc"@)),
            None => None,
        },
    }
}

/// Where the `.zshrc` is, given the values of `ZDOTDIR` and `HOME`.
pub fn default_zshrc_path(zdotdir: Option<&str>, home: Option<&str>) -> (r: Option<String>)
    ensures
        text::option_view(r) == zshrc_path(
            ranking::slice_view(zdotdir),
            ranking::slice_view(home),
        ),
{
    if let Some(dir) = zdotdir {
        let v = text::chars_of(dir);
        let t = text::trimmed(&v);
        if t.len() > 0 {
            let base = text::string_of(&t);
            return Some(paths::join(base.as_str(), ".zshrc"));
        }
    }
    match home {
        Some(h) => Some(paths::join(h, ".zshrc")),
        None => None,
    }
}

/// The name of a backup that is made at a time in seconds.
pub open spec fn backup_name_of(file_name: Seq<char>, timestamp: u64) -> Seq<char> {
    file_name + ".shellsuggest.bak-"@ + number::decimal(timestamp as nat)
}

/// The name of the backup of a file.
pub fn backup_name(file_name: &str, timestamp: u64) -> (r: String)
    ensures
        r@ == backup_name_of(file_name@, timestamp),
{
    let mut out = text::chars_of(file_name);
    text::extend_str(&mut out, ".shellsuggest.bak-");
    let digits = number::decimal_text(timestamp);
    text::extend(&mut out, &digits);
    text::string_of(&out)
}

/// Where the backup of a file goes: beside it.
pub open spec fn backup_of(path: Seq<char>, timestamp: Option<u64>) -> Result<
    Seq<char>,
    MigrateErrorView,
> {
    match timestamp {
        None => Err(MigrateErrorView::ClockBeforeEpoch),
        Some(t) => match paths::file_name_of(path) {
            None => Err(MigrateErrorView::NoFileName),
            Some(name) => Ok(paths::with_file_name_of(path, backup_name_of(name, t))),
        },
    }
}

/// Where the backup of a file goes, given the time in seconds.
pub fn backup_path_for(path: &str, timestamp: Option<u64>) -> (r: Result<String, MigrateError>)
    ensures
        match r {
            Ok(p) => backup_of(path@, timestamp) == Ok::<Seq<char>, MigrateErrorView>(p@),
            Err(e) => backup_of(path@, timestamp) == Err::<Seq<char>, MigrateErrorView>(e@),
        },
{
    let t: u64 = match timestamp {
        Some(t) => t,
        None => return Err(MigrateError::ClockBeforeEpoch),
    };
    match paths::file_name(path) {
        Some(name) => {
            let backup = backup_name(name.as_str(), t);
            Ok(paths::with_file_name(path, backup.as_str()))
        },
        None => Err(MigrateError::NoFileName),
    }
}

/// The text of an optional string slice, or nothing.
pub open spec fn text_or_nothing(contents: Option<&str>) -> Seq<char> {
    match contents {
        Some(c) => c@,
        None => Seq::empty(),
    }
}

/// Plans the migration of the file at `path`, whose contents are given if it is
/// there. A preview, and a migration that changes nothing, takes no steps; else
/// the original is kept beside the file before the file is updated.
pub fn migrate_zsh_autosuggestions_file(
    path: &str,
    contents: Option<&str>,
    dry_run: bool,
    timestamp: Option<u64>,
) -> (r: Result<PlannedMigration, MigrateError>)
    ensures
        ({
            let m = migration_of(text_or_nothing(contents));
            let writes = m.changed && !dry_run;
            match r {
                Err(e) => {
                    ||| contents is None && e@ == (MigrateErrorView::NotFound { path: path@ })
                    ||| contents is Some && writes && backup_of(path@, timestamp) == Err::<
                        Seq<char>,
                        MigrateErrorView,
                    >(e@)
                },
                Ok(plan) => {
                    &&& contents is Some
                    &&& plan.applied.zshrc_path@ == path@
                    &&& plan.applied.report@ == m
                    &&& if writes {
                        match backup_of(path@, timestamp) {
                            Ok(backup) => {
                                &&& text::option_view(plan.applied.backup_path) == Some(backup)
                                &&& step_views(plan.steps@) == seq![
                                    FileStepView::Backup {
                                        path: backup,
                                        contents: text_or_nothing(contents),
                                    },
                                    FileStepView::Update {
                                        path: path@,
                                        contents: m.updated_contents,
                                    },
                                ]
                            },
                            Err(_) => false,
                        }
                    } else {
                        &&& plan.applied.backup_path is None
                        &&& plan.steps@.len() == 0
                    }
                },
            }
        }),
{
    let original: &str = match contents {
        Some(c) => c,
        None => return Err(MigrateError::NotFound { path: text::copy_str(path) }),
    };
    let report = migrate_zsh_autosuggestions(original);
    let mut steps: Vec<FileStep> = Vec::new();
    let mut backup_path: Option<String> = None;
    if report.changed && !dry_run {
        let backup = match backup_path_for(path, timestamp) {
            Ok(p) => p,
            Err(e) => return Err(e),
        };
        steps.push(
            FileStep::Backup { path: backup.clone(), contents: text::copy_str(original) },
        );
        steps.push(
            FileStep::Update {
                path: text::copy_str(path),
                contents: report.updated_contents.clone(),
            },
        );
        assert(step_views(steps@) =~= seq![
            FileStepView::Backup { path: backup@, contents: original@ },
            FileStepView::Update { path: path@, contents: report@.updated_contents },
        ]);
        backup_path = Some(backup);
    }
    Ok(
        PlannedMigration {
            applied: AppliedMigration { zshrc_path: text::copy_str(path), backup_path, report },
            steps,
        },
    )
}

/// The step that makes sure of the directory of a file.
pub open spec fn dir_step(parent: Option<Seq<char>>) -> Seq<FileStepView> {
    match parent {
        Some(dir) => seq![FileStepView::CreateDir { path: dir }],
        None => Seq::empty(),
    }
}

/// Plans the installation into the file at `path`, whose contents are given if
/// it is there. A preview, and an installation that changes nothing, takes no
/// steps; else the original, if there is one, is kept beside the file, and the
/// file is written in its directory.
pub fn init_zshrc_file(
    path: &str,
    contents: Option<&str>,
    dry_run: bool,
    timestamp: Option<u64>,
) -> (r: Result<PlannedInit, MigrateError>)
    ensures
        ({
            let m = init_of(text_or_nothing(contents), contents is Some);
            let writes = m.changed && !dry_run;
            let update = dir_step(paths::parent_of(path@)).push(
                FileStepView::Update { path: path@, contents: m.updated_contents },
            );
            match r {
                Err(e) => {
                    &&& contents is Some
                    &&& writes
                    &&& backup_of(path@, timestamp) == Err::<Seq<char>, MigrateErrorView>(e@)
                },
                Ok(plan) => {
                    &&& plan.applied.zshrc_path@ == path@
                    &&& plan.applied.report@ == m
                    &&& if writes && contents is Some {
                        match backup_of(path@, timestamp) {
                            Ok(backup) => {
                                &&& text::option_view(plan.applied.backup_path) == Some(backup)
                                &&& step_views(plan.steps@) == seq![
                                    FileStepView::Backup {
                                        path: backup,
                                        contents: text_or_nothing(contents),
                                    },
                                ] + update
                            },
                            Err(_) => false,
                        }
                    } else {
                        &&& plan.applied.backup_path is None
                        &&& step_views(plan.steps@) == if writes {
                            update
                        } else {
                            Seq::empty()
                        }
                    }
                },
            }
        }),
{
    let file_exists: bool = contents.is_some();
    let original: &str = match contents {
        Some(c) => c,
        None => "",
    };
    proof {
        reveal_strlit("");
        assert(original@ =~= text_or_nothing(contents));
    }
    let report = plan_zshrc_init(original, file_exists);
    let mut steps: Vec<FileStep> = Vec::new();
    let mut backup_path: Option<String> = None;
    let ghost mut so_far = Seq::<FileStepView>::empty();
    assert(step_views(steps@) =~= so_far);
    if report.changed && !dry_run {
        if file_exists {
            let backup = match backup_path_for(path, timestamp) {
                Ok(p) => p,
                Err(e) => return Err(e),
            };
            steps.push(
                FileStep::Backup { path: backup.clone(), contents: text::copy_str(original) },
            );
            proof {
                so_far = seq![FileStepView::Backup { path: backup@, contents: original@ }];
                assert(step_views(steps@) =~= so_far);
            }
            backup_path = Some(backup);
        }
        let parent = paths::parent(path);
        let ghost dir = text::option_view(parent);
        if let Some(p) = parent {
            steps.push(FileStep::CreateDir { path: p });
        }
        assert(step_views(steps@) =~= so_far + dir_step(dir));
        let ghost before = steps@;
        steps.push(
            FileStep::Update {
                path: text::copy_str(path),
                contents: report.updated_contents.clone(),
            },
        );
        let ghost update = FileStepView::Update {
            path: path@,
            contents: report@.updated_contents,
        };
        assert(step_views(steps@) =~= step_views(before).push(update));
        assert(step_views(steps@) =~= so_far + dir_step(dir).push(update));
    }
    Ok(
        PlannedInit {
            applied: AppliedInit { zshrc_path: text::copy_str(path), backup_path, report },
            steps,
        },
    )
}

// --------------------------------------------------------------------- laws

proof fn lemma_separators()
    ensures
        "\n"@ == seq!['\n'],
        " "@ == seq![' '],
{
    reveal_strlit("\n");
    reveal_strlit(" ");
    assert("\n"@ =~= seq!['\n']);
    assert(" "@ =~= seq![' ']);
}

/// A line that is turned into a comment is a comment.
pub proof fn law_disabled_line_is_comment(line: Seq<char>)
    ensures
        is_comment(disabled(line)),
{
    let body = text::trim_start(line);
    text::lemma_trim_start(line);
    text::lemma_trimmed_is_space(line);
    let blank = line.take(line.len() - body.len());
    let note = "# disabled by shellsuggest migrate: "@;
    reveal_strlit("# disabled by shellsuggest migrate: ");
    let rest = note + text::trim_end(body);
    assert(disabled(line) =~= blank + rest);
    assert forall|i: int| 0 <= i < blank.len() implies text::is_space(#[trigger] blank[i]) by {
        assert(blank[i] == line[i]);
    }
    text::lemma_trim_start_is(blank, rest);
}

/// A line from which the plugin is taken out names it among the plugins no more.
proof fn lemma_rewritten_once(line: Seq<char>)
    requires
        without_plugin(line) is Some,
    ensures
        without_plugin(without_plugin(line)->0) is None,
{
    let (open, close) = plugin_brackets(line)->0;
    let names = text::words(line.subrange(open + 1, close));
    let kept = names.filter(other_plugin());
    let list = text::join(kept, " "@);
    let r = without_plugin(line)->0;
    assert(r == line.take(open + 1) + list + line.skip(close));
    text::lemma_first_at(line, '(');
    text::lemma_last_at(line, ')');
    assert(r[open] == line[open]);
    assert forall|i: int| 0 <= i < open implies #[trigger] r[i] != '(' by {
        assert(r[i] == line[i]);
    }
    text::lemma_first_at_is(r, '(', open);
    let end = open + 1 + list.len();
    assert(r[end] == line[close]);
    assert forall|i: int| end < i < r.len() implies #[trigger] r[i] != ')' by {
        assert(r[i] == line[i - end + close]);
    }
    text::lemma_last_at_is(r, ')', end);
    assert(r.subrange(open + 1, end) =~= list);
    assert forall|i: int| 0 <= i < kept.len() implies text::is_word(#[trigger] kept[i]) by {
        assert(kept.contains(kept[i]));
        names.lemma_filter_contains_rev(other_plugin(), kept[i]);
        let k = choose|k: int| 0 <= k < names.len() && names[k] == kept[i];
        text::lemma_words(line.subrange(open + 1, close), k);
    }
    lemma_separators();
    text::lemma_words_join(kept);
    assert(text::words(r.subrange(open + 1, end)) == kept);
    lemma_filter_all(kept);
    assert forall|i: int| 0 <= i < kept.len() implies other_plugin()(#[trigger] kept[i]) by {
        names.lemma_filter_pred(other_plugin(), i);
    }
}

proof fn lemma_filter_all(s: Seq<Seq<char>>)
    ensures
        (forall|i: int| 0 <= i < s.len() ==> other_plugin()(#[trigger] s[i])) ==> s.filter(
            other_plugin(),
        ) == s,
    decreases s.len(),
{
    reveal(Seq::filter);
    if s.len() > 0 && (forall|i: int| 0 <= i < s.len() ==> other_plugin()(#[trigger] s[i])) {
        assert forall|i: int| 0 <= i < s.drop_last().len() implies other_plugin()(
            #[trigger] s.drop_last()[i],
        ) by {
            assert(s.drop_last()[i] == s[i]);
        }
        lemma_filter_all(s.drop_last());
        assert(other_plugin()(s[s.len() - 1]));
        assert(s.filter(other_plugin()) =~= s);
    }
}

/// After the migration no line, comments aside, has the plugin among the
/// plugins it sets.
pub proof fn law_plugin_is_taken_out(line: Seq<char>)
    ensures
        !is_rewritten(migrated_line(line)),
{
    if is_rewritten(line) {
        lemma_rewritten_once(line);
    } else if is_disabled(line) {
        law_disabled_line_is_comment(line);
    }
}

/// A line that is no comment and has nothing to do with zsh-autosuggestions is
/// kept as it is; so is a comment.
pub proof fn law_other_lines_are_kept(line: Seq<char>)
    ensures
        is_comment(line) || !mentions_plugin(line) ==> migrated_line(line) == line,
{
    if !is_comment(line) && !mentions_plugin(line) && is_rewritten(line) {
        lemma_rewritten_mentions(line);
    }
}

/// A line that sets the plugins and names the plugin mentions it.
proof fn lemma_rewritten_mentions(line: Seq<char>)
    requires
        without_plugin(line) is Some,
    ensures
        mentions_plugin(line),
{
    let name = "zsh-autosuggestions"@;
    let (open, close) = plugin_brackets(line)->0;
    let inner = line.subrange(open + 1, close);
    let names = text::words(inner);
    lemma_filter_all(names);
    let k = choose|k: int| 0 <= k < names.len() && !other_plugin()(#[trigger] names[k]);
    assert(names[k] == name);
    text::lemma_words(inner, k);
    text::lemma_first_at(line, '(');
    text::lemma_last_at(line, ')');
    let t = text::trim_start(line);
    text::lemma_trim_start(line);
    text::lemma_trimmed_is_space(line);
    let cut = line.len() - t.len();
    if open < cut {
        assert(text::is_space(line[open]));
    }
    assert(t.subrange(open + 1 - cut, close - cut) =~= inner);
    text::lemma_has_part(t, open + 1 - cut, close - cut, name);
}

proof fn lemma_count_zero(lines: Seq<Seq<char>>, p: spec_fn(Seq<char>) -> bool)
    ensures
        count(lines, p) == 0 <==> forall|i: int| 0 <= i < lines.len() ==> !p(#[trigger] lines[i]),
    decreases lines.len(),
{
    if lines.len() > 0 {
        let before = lines.drop_last();
        lemma_count_zero(before, p);
        if count(lines, p) == 0 {
            assert forall|i: int| 0 <= i < lines.len() implies !p(#[trigger] lines[i]) by {
                if i < before.len() {
                    assert(!p(before[i]));
                }
            }
        }
        if forall|i: int| 0 <= i < lines.len() ==> !p(#[trigger] lines[i]) {
            assert forall|i: int| 0 <= i < before.len() implies !p(#[trigger] before[i]) by {
                assert(before[i] == lines[i]);
            }
            assert(!p(lines[lines.len() - 1]));
        }
    }
}

/// zsh-autosuggestions is active in the contents.
pub open spec fn has_autosuggestions(contents: Seq<char>) -> bool {
    let m = migration_of(contents);
    m.disabled_lines > 0 || m.removed_plugin_tokens > 0
}

/// Contents in which zsh-autosuggestions is not active keep their lines, and
/// only line ends change; contents of one empty line lose it.
pub proof fn law_nothing_to_migrate(contents: Seq<char>)
    requires
        !has_autosuggestions(contents),
    ensures
        !migration_of(contents).added_init,
        migration_of(contents).updated_contents == text_of_lines(text::lines(contents)),
        contents != seq!['\n'] && contents != seq!['\r', '\n'] ==> !migration_of(contents).changed,
{
    let lines = text::lines(contents);
    lemma_count_zero(lines, rewrites());
    lemma_count_zero(lines, disables());
    assert forall|i: int| 0 <= i < lines.len() implies #[trigger] migrated_lines(lines)[i]
        == lines[i] by {
        assert(!rewrites()(lines[i]));
        assert(!disables()(lines[i]));
    }
    assert(migrated_lines(lines) =~= lines);
    lemma_separators();
    if contents.len() > 0 && contents != seq!['\n'] && contents != seq!['\r', '\n'] {
        let body = text::join(lines, "\n"@);
        text::lemma_lines(contents);
        if body.len() == 0 {
            assert(lines.len() == 1);
            assert(lines[0].len() == 0);
            let n = text::first_at(contents, '\n');
            text::lemma_first_at(contents, '\n');
            assert(n < contents.len());
            let rest = contents.skip(n + 1);
            assert(lines == seq![text::chomp(contents.take(n))] + text::lines(rest));
            text::lemma_lines(rest);
            assert(rest.len() == 0);
            let front = contents.take(n);
            assert(lines[0] == text::chomp(front));
            if front.len() == 0 {
                assert(contents =~= seq!['\n']);
            } else {
                assert(front.len() == 1 && front[0] == '\r');
                assert(contents =~= seq!['\r', '\n']);
            }
        }
    } else if contents.len() == 0 {
        assert(lines =~= Seq::<Seq<char>>::empty());
        assert(text_of_lines(lines) =~= contents);
    }
}

proof fn lemma_init_line()
    ensures
        loads_shellsuggest(SHELLSUGGEST_INIT_LINE@),
        !is_comment(SHELLSUGGEST_INIT_LINE@),
        !mentions_plugin(SHELLSUGGEST_INIT_LINE@),
        SHELLSUGGEST_INIT_LINE@.len() > 0,
        text::chomp(SHELLSUGGEST_INIT_LINE@) == SHELLSUGGEST_INIT_LINE@,
        !SHELLSUGGEST_INIT_LINE@.contains('\n'),
{
    let s = SHELLSUGGEST_INIT_LINE@;
    reveal_strlit("eval \"$(shellsuggest init zsh)\"");
    reveal_strlit("shellsuggest init zsh");
    reveal_strlit("zsh-autosuggestions");
    assert(s.len() == 31);
    assert(s[0] == 'e');
    assert(text::trim_start(s) == s);
    assert(s.subrange(8, 29) =~= "shellsuggest init zsh"@);
    assert(text::occurs_at(s, "shellsuggest init zsh"@, 8));
    let name = "zsh-autosuggestions"@;
    assert forall|i: int| 0 <= i <= 12 implies !text::occurs_at(s, name, i) by {
        if text::occurs_at(s, name, i) {
            assert(s.subrange(i, i + name.len())[0] == name[0]);
        }
    }
    assert(!text::has(s, name));
    lemma_named_alone(s);
    assert forall|i: int| 0 <= i < s.len() implies s[i] != '\n' by {}
}

/// A line that is the name of the plugin alone, a comment behind it aside,
/// holds the name.
proof fn lemma_named_alone(t: Seq<char>)
    ensures
        text::trim(t.take(text::first_at(t, '#'))) == "zsh-autosuggestions"@ ==> text::has(
            t,
            "zsh-autosuggestions"@,
        ),
{
    let name = "zsh-autosuggestions"@;
    text::lemma_first_at(t, '#');
    let front = t.take(text::first_at(t, '#'));
    if text::trim(front) == name {
        text::lemma_trim_is_part(front);
        let (from, to) = choose|from: int, to: int|
            0 <= from <= to <= front.len() && #[trigger] front.subrange(from, to) == text::trim(
                front,
            );
        text::lemma_has_itself(name);
        text::lemma_has_part(front, from, to, name);
        assert(front =~= t.subrange(0, front.len() as int));
        text::lemma_has_part(t, 0, front.len() as int, name);
    }
}

/// What a line is does not hang on a carriage return at its end.
proof fn lemma_chomp_keeps(line: Seq<char>)
    ensures
        is_comment(line) ==> is_comment(text::chomp(line)),
        !mentions_plugin(line) ==> !mentions_plugin(text::chomp(line)),
        text::chomp(line).contains('\n') ==> line.contains('\n'),
{
    let short = text::chomp(line);
    if short != line {
        let t = text::trim_start(line);
        text::lemma_trim_start(line);
        text::lemma_trimmed_is_space(line);
        let cut = line.len() - t.len();
        if t.len() == 0 {
            assert(short =~= short + Seq::<char>::empty());
            assert forall|i: int| 0 <= i < short.len() implies text::is_space(
                #[trigger] short[i],
            ) by {
                assert(short[i] == line[i]);
            }
            text::lemma_trim_start_is(short, Seq::empty());
        } else {
            let blank = short.take(cut);
            let rest = t.drop_last();
            assert(t.last() == line.last());
            if t.len() == 1 {
                assert(t[0] == '\r');
                assert(text::is_space('\r'));
            }
            assert(rest[0] == t[0]);
            assert(short =~= blank + rest);
            assert forall|i: int| 0 <= i < blank.len() implies text::is_space(
                #[trigger] blank[i],
            ) by {
                assert(blank[i] == line[i]);
            }
            text::lemma_trim_start_is(blank, rest);
            lemma_named_alone(rest);
            if text::has(rest, "zsh-autosuggestions"@) {
                assert(rest =~= t.subrange(0, rest.len() as int));
                text::lemma_has_part(t, 0, rest.len() as int, "zsh-autosuggestions"@);
            }
        }
        if text::trim_start(short).len() == 0 {
            let e = text::trim_start(short);
            lemma_named_alone(e);
            reveal_strlit("zsh-autosuggestions");
            assert forall|i: int| !text::occurs_at(e, "zsh-autosuggestions"@, i) by {}
        }
        if short.contains('\n') {
            let i = choose|i: int| 0 <= i < short.len() && short[i] == '\n';
            assert(line[i] == '\n');
        }
    }
}

/// Neither comments nor lines that do not mention the plugin are changed.
proof fn lemma_quiet(line: Seq<char>)
    requires
        is_comment(line) || !mentions_plugin(line),
    ensures
        !is_rewritten(line),
        !is_disabled(line),
{
    if !is_comment(line) && without_plugin(line) is Some {
        lemma_rewritten_mentions(line);
    }
}

proof fn lemma_header(header: Seq<char>)
    requires
        header == INIT_HEADER@ || header == MIGRATION_HEADER@,
    ensures
        is_comment(header),
        !header.contains('\n'),
{
    reveal_strlit("# Added by `shellsuggest init`");
    reveal_strlit("# Added by `shellsuggest migrate zsh-autosuggestions`");
    assert(text::trim_start(header) == header);
    assert forall|i: int| 0 <= i < header.len() implies header[i] != '\n' by {}
}

/// The text of lines that end in the loader has those lines.
proof fn lemma_loader_lines(lines: Seq<Seq<char>>, header: Seq<char>)
    requires
        forall|i: int| 0 <= i < lines.len() ==> !(#[trigger] lines[i]).contains('\n'),
        header == INIT_HEADER@ || header == MIGRATION_HEADER@,
    ensures
        text::lines(text_of_lines(with_loader(lines, header))) == text::chomped(
            with_loader(lines, header),
        ),
        any(text::lines(text_of_lines(with_loader(lines, header))), loads()),
{
    let all = with_loader(lines, header);
    let n = all.len() - 1;
    lemma_header(header);
    lemma_init_line();
    lemma_separators();
    assert forall|i: int| 0 <= i < all.len() implies !(#[trigger] all[i]).contains('\n') by {
        if i < lines.len() {
            assert(all[i] == lines[i]);
        }
    }
    let body = text::join(all, "\n"@);
    text::lemma_join_push(all.drop_last(), "\n"@, all.last());
    assert(all.drop_last().push(all.last()) =~= all);
    assert(body.len() > 0);
    text::lemma_lines_join(all);
    let read = text::chomped(all);
    assert(read[n] == SHELLSUGGEST_INIT_LINE@);
    assert(loads()(read[n]));
}

/// After an installation into contents in which zsh-autosuggestions is not
/// active, the plugin is installed, and another installation changes nothing.
proof fn lemma_init_installs(contents: Seq<char>, file_exists: bool)
    requires
        !has_autosuggestions(contents),
    ensures
        ({
            let after = init_of(contents, file_exists).updated_contents;
            let again = init_of(after, true);
            &&& again.action == InitAction::AlreadyInstalled
            &&& !again.changed
            &&& again.migration is None
        }),
{
    let lines = text::lines(contents);
    let after = init_of(contents, file_exists).updated_contents;
    text::lemma_lines(contents);
    lemma_count_zero(lines, rewrites());
    lemma_count_zero(lines, disables());
    lemma_separators();
    let all = if any(lines, loads()) {
        lines
    } else {
        with_loader(lines, INIT_HEADER@)
    };
    if any(lines, loads()) {
        let i = choose|i: int| 0 <= i < lines.len() && loads()(#[trigger] lines[i]);
        assert(contents.len() > 0) by {
            if contents.len() == 0 {
                assert(lines =~= Seq::<Seq<char>>::empty());
            }
        }
        text::lemma_lines_join(lines);
        lemma_loads_chomped(lines[i]);
        assert(text::chomped(lines)[i] == text::chomp(lines[i]));
        assert(loads()(text::chomped(lines)[i]));
    } else {
        lemma_loader_lines(lines, INIT_HEADER@);
    }
    let read = text::lines(after);
    assert(read == text::chomped(all));
    assert(any(read, loads()));
    lemma_init_line();
    lemma_header(INIT_HEADER@);
    assert forall|i: int| 0 <= i < read.len() implies !is_rewritten(#[trigger] read[i])
        && !is_disabled(read[i]) by {
        assert(read[i] == text::chomp(all[i]));
        if i < lines.len() {
            assert(all[i] == lines[i]);
            assert(!rewrites()(lines[i]));
            assert(!disables()(lines[i]));
        } else if all[i].len() == 0 {
            lemma_empty_line();
            assert(all[i] =~= Seq::<char>::empty());
        }
        assert(is_comment(all[i]) || !mentions_plugin(all[i]));
        lemma_chomp_keeps(all[i]);
        lemma_quiet(read[i]);
    }
    assert forall|i: int| 0 <= i < read.len() implies !rewrites()(#[trigger] read[i]) by {}
    assert forall|i: int| 0 <= i < read.len() implies !disables()(#[trigger] read[i]) by {}
    lemma_count_zero(read, rewrites());
    lemma_count_zero(read, disables());
}

proof fn lemma_empty_line()
    ensures
        !mentions_plugin(Seq::<char>::empty()),
{
    let e = Seq::<char>::empty();
    reveal_strlit("zsh-autosuggestions");
    assert(text::trim_start(e) == e);
    assert forall|i: int| !text::occurs_at(e, "zsh-autosuggestions"@, i) by {}
    lemma_named_alone(e);
}

/// A line that loads the plugin does so without a carriage return at its end.
proof fn lemma_loads_chomped(line: Seq<char>)
    requires
        loads_shellsuggest(line),
    ensures
        loads_shellsuggest(text::chomp(line)),
{
    let short = text::chomp(line);
    if short != line {
        let t = text::trim_start(line);
        text::lemma_trim_start(line);
        text::lemma_trimmed_is_space(line);
        let cut = line.len() - t.len();
        reveal_strlit("shellsuggest init zsh");
        reveal_strlit("shellsuggest.plugin.zsh");
        assert(t.len() >= 21);
        let blank = short.take(cut);
        let rest = t.drop_last();
        assert(short =~= blank + rest);
        assert(rest[0] == t[0]);
        assert forall|i: int| 0 <= i < blank.len() implies text::is_space(#[trigger] blank[i]) by {
            assert(blank[i] == line[i]);
        }
        text::lemma_trim_start_is(blank, rest);
        lemma_has_drop_last(t, "shellsuggest init zsh"@);
        lemma_has_drop_last(t, "shellsuggest.plugin.zsh"@);
    }
}

/// A text that does not end in the last character of another is still there
/// without it.
proof fn lemma_has_drop_last(t: Seq<char>, p: Seq<char>)
    requires
        t.len() > 0,
        p.len() > 0,
        t.last() != p.last(),
    ensures
        text::has(t, p) ==> text::has(t.drop_last(), p),
{
    if text::has(t, p) {
        let i = choose|i: int| text::occurs_at(t, p, i);
        if i + p.len() == t.len() {
            assert(t.subrange(i, i + p.len())[p.len() - 1] == p.last());
        }
        assert(t.drop_last().subrange(i, i + p.len()) =~= t.subrange(i, i + p.len()));
        assert(text::occurs_at(t.drop_last(), p, i));
    }
}

/// A line that loads the plugin is left alone.
pub open spec fn loaders_stay(contents: Seq<char>) -> bool {
    forall|i: int|
        0 <= i < text::lines(contents).len() && loads_shellsuggest(
            #[trigger] text::lines(contents)[i],
        ) ==> !mentions_plugin(text::lines(contents)[i])
}

/// After a migration of contents in which zsh-autosuggestions is active, the
/// plugin is loaded; a line that loads both at once is left aside.
pub proof fn law_migration_loads(contents: Seq<char>)
    requires
        has_autosuggestions(contents),
        loaders_stay(contents),
    ensures
        any(text::lines(migration_of(contents).updated_contents), loads()),
{
    let lines = text::lines(contents);
    let migrated = migrated_lines(lines);
    text::lemma_lines(contents);
    lemma_separators();
    assert forall|i: int| 0 <= i < migrated.len() implies !(#[trigger] migrated[i]).contains(
        '\n',
    ) by {
        assert(migrated[i] == migrated_line(lines[i]));
        lemma_migrated_plain(lines[i]);
    }
    if migration_of(contents).added_init {
        lemma_loader_lines(migrated, MIGRATION_HEADER@);
    } else {
        let i = choose|i: int| 0 <= i < lines.len() && loads()(#[trigger] lines[i]);
        assert(loads_shellsuggest(text::lines(contents)[i]));
        lemma_quiet(lines[i]);
        assert(migrated[i] == lines[i]);
        let body = text::join(migrated, "\n"@);
        assert(body.len() > 0) by {
            lemma_join_holds(migrated, i);
            text::lemma_trim_start(lines[i]);
            reveal_strlit("shellsuggest init zsh");
            reveal_strlit("shellsuggest.plugin.zsh");
        }
        text::lemma_lines_join(migrated);
        lemma_loads_chomped(lines[i]);
        assert(text::chomped(migrated)[i] == text::chomp(lines[i]));
        assert(loads()(text::chomped(migrated)[i]));
    }
}

proof fn lemma_join_holds(parts: Seq<Seq<char>>, i: int)
    requires
        0 <= i < parts.len(),
    ensures
        text::join(parts, "\n"@).len() >= parts[i].len(),
    decreases parts.len(),
{
    if parts.len() > 1 && i > 0 {
        lemma_join_holds(parts.skip(1), i - 1);
    }
}

proof fn lemma_migrated_plain(line: Seq<char>)
    requires
        !line.contains('\n'),
    ensures
        !migrated_line(line).contains('\n'),
{
    let r = migrated_line(line);
    if is_rewritten(line) {
        let (open, close) = plugin_brackets(line)->0;
        let inner = line.subrange(open + 1, close);
        let names = text::words(inner);
        let kept = names.filter(other_plugin());
        let list = text::join(kept, " "@);
        text::lemma_first_at(line, '(');
        text::lemma_last_at(line, ')');
        lemma_separators();
        assert forall|i: int| 0 <= i < kept.len() implies text::is_word(#[trigger] kept[i]) by {
            assert(kept.contains(kept[i]));
            names.lemma_filter_contains_rev(other_plugin(), kept[i]);
            let k = choose|k: int| 0 <= k < names.len() && names[k] == kept[i];
            text::lemma_words(inner, k);
        }
        lemma_list_plain(kept);
        if r.contains('\n') {
            let i = choose|i: int| 0 <= i < r.len() && r[i] == '\n';
            if i < open + 1 {
                assert(line[i] == '\n');
            } else if i < open + 1 + list.len() {
                assert(list[i - open - 1] == '\n');
            } else {
                assert(line[i - open - 1 - list.len() + close] == '\n');
            }
        }
    } else if is_disabled(line) {
        let body = text::trim_start(line);
        text::lemma_trim_start(line);
        text::lemma_trim_end(body);
        let blank = line.take(line.len() - body.len());
        let note = "# disabled by shellsuggest migrate: "@;
        reveal_strlit("# disabled by shellsuggest migrate: ");
        if r.contains('\n') {
            let i = choose|i: int| 0 <= i < r.len() && r[i] == '\n';
            if i < blank.len() {
                assert(line[i] == '\n');
            } else if i < blank.len() + note.len() {
                assert(note[i - blank.len()] == '\n');
            } else {
                let k = i - blank.len() - note.len();
                assert(body[k] == '\n');
                assert(line[k + blank.len()] == '\n');
            }
        }
    }
}

proof fn lemma_list_plain(ws: Seq<Seq<char>>)
    requires
        forall|i: int| 0 <= i < ws.len() ==> text::is_word(#[trigger] ws[i]),
    ensures
        !text::join(ws, seq![' ']).contains('\n'),
    decreases ws.len(),
{
    let s = text::join(ws, seq![' ']);
    if ws.len() > 0 {
        let rest = ws.skip(1);
        assert forall|i: int| 0 <= i < rest.len() implies text::is_word(#[trigger] rest[i]) by {
            assert(rest[i] == ws[i + 1]);
        }
        lemma_list_plain(rest);
        let w = ws[0];
        assert(text::is_word(w));
        assert(text::is_space('\n'));
        if s.contains('\n') {
            let i = choose|i: int| 0 <= i < s.len() && s[i] == '\n';
            if i < w.len() {
                assert(w[i] == '\n');
            } else if i > w.len() {
                let tail = text::join(rest, seq![' ']);
                assert(tail[i - w.len() - 1] == '\n');
                assert(tail.contains('\n'));
            }
        }
    }
}

/// The name of the plugin occurs at most once in the line.
pub open spec fn names_plugin_once(line: Seq<char>) -> bool {
    forall|i: int, j: int| #[trigger]
        text::occurs_at(line, "zsh-autosuggestions"@, i) && #[trigger] text::occurs_at(
            line,
            "zsh-autosuggestions"@,
            j,
        ) ==> i == j
}

/// No line that sets the plugins, comments aside, holds the name of the plugin
/// more than once.
pub open spec fn plugin_named_once(contents: Seq<char>) -> bool {
    forall|i: int|
        0 <= i < text::lines(contents).len() && !is_comment(#[trigger] text::lines(contents)[i])
            && text::begins(text::trim_start(text::lines(contents)[i]), "plugins="@)
            ==> names_plugin_once(text::lines(contents)[i])
}

/// A line from which the plugin is taken out mentions it no more.
pub open spec fn taken_out_whole(contents: Seq<char>) -> bool {
    forall|i: int|
        0 <= i < text::lines(contents).len() && is_rewritten(#[trigger] text::lines(contents)[i])
            ==> !mentions_plugin(migrated_line(text::lines(contents)[i]))
}

/// No line ends in a carriage return that is not part of its end.
pub open spec fn no_loose_returns(contents: Seq<char>) -> bool {
    forall|i: int|
        0 <= i < text::lines(contents).len() ==> text::chomp(#[trigger] text::lines(contents)[i])
            == text::lines(contents)[i]
}

/// An occurrence of the name in a part of a line is one in the line.
proof fn lemma_occurs_in_part(line: Seq<char>, from: int, to: int, k: int)
    requires
        0 <= from <= to <= line.len(),
        text::occurs_at(line.subrange(from, to), "zsh-autosuggestions"@, k),
    ensures
        text::occurs_at(line, "zsh-autosuggestions"@, from + k),
{
    let name = "zsh-autosuggestions"@;
    assert(line.subrange(from + k, from + k + name.len()) =~= line.subrange(from, to).subrange(
        k,
        k + name.len(),
    ));
}

/// Another plugin whose name holds that of the plugin makes it occur twice.
proof fn lemma_named_twice(inner: Seq<char>, k: int, m: int)
    requires
        0 <= k < text::words(inner).len(),
        0 <= m < text::words(inner).len(),
        text::words(inner)[k] != "zsh-autosuggestions"@,
        text::has(text::words(inner)[k], "zsh-autosuggestions"@),
        text::words(inner)[m] == "zsh-autosuggestions"@,
    ensures
        exists|i: int, j: int| #[trigger]
            text::occurs_at(inner, "zsh-autosuggestions"@, i) && #[trigger] text::occurs_at(
                inner,
                "zsh-autosuggestions"@,
                j,
            ) && i != j,
{
    let name = "zsh-autosuggestions"@;
    let names = text::words(inner);
    let w = names[k];
    reveal_strlit("zsh-autosuggestions");
    let o = choose|o: int| text::occurs_at(w, name, o);
    if k < m {
        text::lemma_words_apart(inner, k, m);
        let (a, b) = choose|a: int, b: int|
            #[trigger] text::occurs_at(inner, w, a) && #[trigger] text::occurs_at(inner, name, b)
                && a + w.len() <= b;
        lemma_occurs_in_part(inner, a, a + w.len(), o);
        assert(a + o != b);
    } else {
        text::lemma_words_apart(inner, m, k);
        let (a, b) = choose|a: int, b: int|
            #[trigger] text::occurs_at(inner, name, a) && #[trigger] text::occurs_at(inner, w, b)
                && a + name.len() <= b;
        lemma_occurs_in_part(inner, b, b + w.len(), o);
        assert(b + o != a);
    }
}

/// A line that names the plugin once, among the plugins it sets, mentions it no
/// more when it is taken out.
proof fn lemma_taken_out_whole(line: Seq<char>)
    requires
        without_plugin(line) is Some,
        names_plugin_once(line),
    ensures
        !mentions_plugin(without_plugin(line)->0),
{
    let name = "zsh-autosuggestions"@;
    reveal_strlit("zsh-autosuggestions");
    assert(name.len() == 19);
    assert forall|i: int| 0 <= i < name.len() implies name[i] != '(' && name[i] != ')' && name[i]
        != ' ' by {}
    let (open, close) = plugin_brackets(line)->0;
    let inner = line.subrange(open + 1, close);
    let names = text::words(inner);
    let kept = names.filter(other_plugin());
    let list = text::join(kept, " "@);
    let r = without_plugin(line)->0;
    let end = open + 1 + list.len();
    text::lemma_first_at(line, '(');
    text::lemma_last_at(line, ')');
    lemma_separators();
    lemma_filter_all(names);
    let m = choose|m: int| 0 <= m < names.len() && !other_plugin()(#[trigger] names[m]);
    assert(names[m] == name);
    text::lemma_words(inner, m);
    let at = choose|at: int| text::occurs_at(inner, name, at);
    lemma_occurs_in_part(line, open + 1, close, at);
    if text::has(r, name) {
        let p = choose|p: int| text::occurs_at(r, name, p);
        let found = r.subrange(p, p + name.len());
        assert forall|i: int| p <= i < p + name.len() implies #[trigger] r[i] == name[i - p] by {
            assert(found[i - p] == r[i]);
        }
        assert(r[open] == '(');
        assert(r[end] == ')');
        if p + name.len() <= open {
            assert(line.subrange(p, p + name.len()) =~= found);
            assert(text::occurs_at(line, name, p));
            assert(false);
        } else if p > end {
            let q = p - end + close;
            assert(line.subrange(q, q + name.len()) =~= found);
            assert(text::occurs_at(line, name, q));
            assert(false);
        } else if p <= open {
            assert(r[open] == name[open - p]);
            assert(false);
        } else if p + name.len() > end {
            assert(r[end] == name[end - p]);
            assert(false);
        } else {
            assert(list.subrange(p - open - 1, p - open - 1 + name.len()) =~= found);
            assert(text::occurs_at(list, name, p - open - 1));
            text::lemma_has_joined(kept, name);
            let i = choose|i: int| 0 <= i < kept.len() && text::has(#[trigger] kept[i], name);
            names.lemma_filter_pred(other_plugin(), i);
            assert(kept.contains(kept[i]));
            names.lemma_filter_contains_rev(other_plugin(), kept[i]);
            let k = choose|k: int| 0 <= k < names.len() && names[k] == kept[i];
            lemma_named_twice(inner, k, m);
            let (a, b) = choose|a: int, b: int| #[trigger]
                text::occurs_at(inner, name, a) && #[trigger] text::occurs_at(inner, name, b) && a
                    != b;
            lemma_occurs_in_part(line, open + 1, close, a);
            lemma_occurs_in_part(line, open + 1, close, b);
            assert(false);
        }
    }
    let t = text::trim_start(r);
    text::lemma_trim_start(r);
    lemma_named_alone(t);
    if text::has(t, name) {
        assert(t =~= r.subrange(r.len() - t.len(), r.len() as int));
        text::lemma_has_part(r, r.len() - t.len(), r.len() as int, name);
    }
}

/// Where the plugin is named once, it is taken out whole.
pub proof fn law_named_once_is_taken_out_whole(contents: Seq<char>)
    requires
        plugin_named_once(contents),
    ensures
        taken_out_whole(contents),
{
    let lines = text::lines(contents);
    assert forall|i: int| 0 <= i < lines.len() && is_rewritten(#[trigger] lines[i]) implies
        !mentions_plugin(migrated_line(lines[i])) by {
        assert(!is_comment(text::lines(contents)[i]));
        lemma_taken_out_whole(lines[i]);
    }
}

/// After a migration every line that mentions zsh-autosuggestions is a comment.
pub proof fn law_only_comments_mention_plugin(contents: Seq<char>)
    requires
        taken_out_whole(contents),
    ensures
        ({
            let after = text::lines(migration_of(contents).updated_contents);
            forall|i: int|
                0 <= i < after.len() && mentions_plugin(#[trigger] after[i]) ==> is_comment(
                    after[i],
                )
        }),
{
    let lines = text::lines(contents);
    let m = migration_of(contents);
    let migrated = migrated_lines(lines);
    let all = if m.added_init {
        with_loader(migrated, MIGRATION_HEADER@)
    } else {
        migrated
    };
    let after = text::lines(m.updated_contents);
    lemma_migrated_reads_back(contents);
    lemma_header(MIGRATION_HEADER@);
    lemma_init_line();
    assert forall|i: int| 0 <= i < after.len() && mentions_plugin(#[trigger] after[i]) implies
        is_comment(after[i]) by {
        assert(after[i] == text::chomp(all[i]));
        if i < lines.len() {
            assert(all[i] == migrated_line(lines[i]));
            if is_rewritten(lines[i]) {
                assert(!mentions_plugin(migrated_line(text::lines(contents)[i])));
            } else if is_disabled(lines[i]) {
                law_disabled_line_is_comment(lines[i]);
            }
        } else if all[i].len() == 0 {
            lemma_empty_line();
            assert(all[i] =~= Seq::<char>::empty());
        }
        assert(is_comment(all[i]) || !mentions_plugin(all[i]));
        lemma_chomp_keeps(all[i]);
    }
}

/// The text after a migration has the lines that were put into it, each without
/// a carriage return at its end, or is empty.
proof fn lemma_migrated_reads_back(contents: Seq<char>)
    ensures
        ({
            let m = migration_of(contents);
            let migrated = migrated_lines(text::lines(contents));
            let all = if m.added_init {
                with_loader(migrated, MIGRATION_HEADER@)
            } else {
                migrated
            };
            let after = text::lines(m.updated_contents);
            if m.updated_contents.len() == 0 {
                after.len() == 0
            } else {
                after == text::chomped(all)
            }
        }),
{
    let lines = text::lines(contents);
    let m = migration_of(contents);
    let migrated = migrated_lines(lines);
    text::lemma_lines(contents);
    lemma_separators();
    assert forall|i: int| 0 <= i < migrated.len() implies !(#[trigger] migrated[i]).contains(
        '\n',
    ) by {
        assert(migrated[i] == migrated_line(lines[i]));
        lemma_migrated_plain(lines[i]);
    }
    if m.added_init {
        lemma_loader_lines(migrated, MIGRATION_HEADER@);
    } else if m.updated_contents.len() > 0 {
        assert(migrated.len() > 0);
        text::lemma_lines_join(migrated);
    }
}

/// A migration does not make a line end in a carriage return.
proof fn lemma_migrated_ends(line: Seq<char>)
    requires
        text::chomp(line) == line,
    ensures
        text::chomp(migrated_line(line)) == migrated_line(line),
{
    let r = migrated_line(line);
    assert(line.len() == 0 || line.last() != '\r') by {
        if line.len() > 0 && line.last() == '\r' {
            assert(text::chomp(line).len() < line.len());
        }
    }
    if is_rewritten(line) {
        let (open, close) = plugin_brackets(line)->0;
        text::lemma_first_at(line, '(');
        text::lemma_last_at(line, ')');
        assert(r.last() == line.last());
    } else if is_disabled(line) {
        let body = text::trim_start(line);
        text::lemma_trim_end(body);
        reveal_strlit("# disabled by shellsuggest migrate: ");
        assert(text::is_space('\r'));
        if text::trim_end(body).len() > 0 {
            assert(r.last() == text::trim_end(body).last());
        } else {
            assert(r.last() == "# disabled by shellsuggest migrate: "@.last());
        }
    }
}

/// A second migration finds nothing to do; where no line ends in a loose
/// carriage return, as in a text without any, it leaves every character as it
/// is. Lines from which the plugin cannot be taken out whole are left aside.
pub proof fn law_second_migration_does_nothing(contents: Seq<char>)
    requires
        taken_out_whole(contents),
    ensures
        ({
            let after = migration_of(contents).updated_contents;
            let again = migration_of(after);
            &&& again.disabled_lines == 0
            &&& again.removed_plugin_tokens == 0
            &&& !again.added_init
            &&& after != seq!['\r', '\n'] ==> !again.changed
            &&& no_loose_returns(contents) ==> !again.changed && again.updated_contents == after
        }),
        !contents.contains('\r') ==> no_loose_returns(contents),
{
    let lines = text::lines(contents);
    let m = migration_of(contents);
    let migrated = migrated_lines(lines);
    let after = m.updated_contents;
    let read = text::lines(after);
    let all = if m.added_init {
        with_loader(migrated, MIGRATION_HEADER@)
    } else {
        migrated
    };
    law_only_comments_mention_plugin(contents);
    assert forall|i: int| 0 <= i < read.len() implies !rewrites()(#[trigger] read[i])
        && !disables()(read[i]) by {
        lemma_quiet(read[i]);
    }
    lemma_count_zero(read, rewrites());
    lemma_count_zero(read, disables());
    law_nothing_to_migrate(after);
    lemma_migrated_reads_back(contents);
    lemma_separators();
    assert(after != seq!['\n']) by {
        if after == seq!['\n'] {
            assert(text::join(all, "\n"@).len() == 0);
        }
    }
    if no_loose_returns(contents) {
        lemma_header(MIGRATION_HEADER@);
        lemma_init_line();
        reveal_strlit("# Added by `shellsuggest migrate zsh-autosuggestions`");
        assert forall|i: int| 0 <= i < all.len() implies #[trigger] text::chomp(all[i])
            == all[i] by {
            if i < lines.len() {
                assert(text::chomp(text::lines(contents)[i]) == lines[i]);
                lemma_migrated_ends(lines[i]);
                assert(all[i] == migrated_line(lines[i]));
            }
        }
        if after.len() > 0 {
            assert(read =~= all);
            assert(migration_of(after).updated_contents == after);
            if after == seq!['\r', '\n'] {
                text::lemma_first_at_is(after, '\n', 1);
                assert(after.skip(2) =~= Seq::<char>::empty());
                assert(text::lines(after.skip(2)) =~= Seq::<Seq<char>>::empty());
                assert(text::chomp(after.take(1)) =~= Seq::<char>::empty());
                assert(read =~= seq![Seq::<char>::empty()]);
                assert(text::join(all, "\n"@).len() == 0);
            }
        } else {
            assert(after =~= Seq::<char>::empty());
            assert(read =~= Seq::<Seq<char>>::empty());
            assert(text_of_lines(read) =~= after);
        }
    }
    if !contents.contains('\r') {
        text::lemma_lines_hold(contents, '\r');
        assert forall|i: int| 0 <= i < lines.len() implies text::chomp(#[trigger] lines[i])
            == lines[i] by {
            if lines[i].len() > 0 && lines[i].last() == '\r' {
                assert(lines[i].contains(lines[i][lines[i].len() - 1]));
            }
        }
    }
}

/// After an installation the plugin is installed, and another installation
/// changes nothing. Where zsh-autosuggestions was active, lines from which it
/// cannot be taken out whole, and lines that load both at once, are left aside.
pub proof fn law_init_installs(contents: Seq<char>, file_exists: bool)
    requires
        has_autosuggestions(contents) ==> taken_out_whole(contents) && loaders_stay(contents),
    ensures
        ({
            let after = init_of(contents, file_exists).updated_contents;
            let again = init_of(after, true);
            &&& again.action == InitAction::AlreadyInstalled
            &&& !again.changed
            &&& again.migration is None
        }),
{
    if has_autosuggestions(contents) {
        law_second_migration_does_nothing(contents);
        law_migration_loads(contents);
    } else {
        lemma_init_installs(contents, file_exists);
    }
}

/// White space before a line aside, a line is a comment where it begins with a
/// `#`. A comment is kept and does nothing. Any other line loads the plugin where
/// it holds the command or the file that does so, sets what it holds, and is
/// turned into a comment where it holds the name of the other plugin and that
/// name cannot be taken out of a list of plugins.
pub proof fn law_fate_of_line(indent: Seq<char>, body: Seq<char>, setting: Seq<char>)
    requires
        forall|i: int| 0 <= i < indent.len() ==> text::is_space(#[trigger] indent[i]),
        body.len() > 0,
        !text::is_space(body[0]),
    ensures
        ({
            let line = indent + body;
            &&& is_comment(line) <==> body[0] == '#'
            &&& body[0] == '#' ==> {
                &&& migrated_line(line) == line
                &&& !is_rewritten(line) && !is_disabled(line)
                &&& !loads_shellsuggest(line) && !sets(setting)(line)
            }
            &&& body[0] != '#' ==> {
                &&& loads_shellsuggest(line) <==> text::has(body, "shellsuggest init zsh"@)
                    || text::has(body, "shellsuggest.plugin.zsh"@)
                &&& sets(setting)(line) <==> text::has(body, setting)
                &&& is_rewritten(line) <==> without_plugin(line) is Some
                &&& is_disabled(line) <==> without_plugin(line) is None && text::has(
                    body,
                    "zsh-autosuggestions"@,
                )
            }
        }),
{
    text::lemma_trim_start_is(indent, body);
    lemma_named_alone(body);
}

/// The name of the other plugin is taken out from between the others in a list
/// of plugins; the others keep their order, and what stands around the list stays.
pub proof fn law_name_is_taken_out(
    indent: Seq<char>,
    more: Seq<char>,
    inner: Seq<char>,
    after: Seq<char>,
    before_it: Seq<Seq<char>>,
    behind_it: Seq<Seq<char>>,
)
    requires
        forall|i: int| 0 <= i < indent.len() ==> text::is_space(#[trigger] indent[i]),
        !more.contains('('),
        !after.contains(')'),
        text::words(inner) == before_it + seq!["zsh-autosuggestions"@] + behind_it,
        !before_it.contains("zsh-autosuggestions"@),
        !behind_it.contains("zsh-autosuggestions"@),
    ensures
        ({
            let front = indent + ("plugins="@ + more) + seq!['('];
            let line = front + inner + seq![')'] + after;
            &&& without_plugin(line) == Some(
                front + text::join(before_it + behind_it, seq![' ']) + seq![')'] + after,
            )
            &&& migrated_line(line) == front + text::join(before_it + behind_it, seq![' '])
                + seq![')'] + after
        }),
{
    let name = "zsh-autosuggestions"@;
    let start = "plugins="@ + more;
    let front = indent + start + seq!['('];
    let line = front + inner + seq![')'] + after;
    lemma_plugins_line(indent, more, inner, after);
    let names = text::words(inner);
    lemma_separators();
    let p = other_plugin();
    Seq::filter_distributes_over_add(before_it + seq![name], behind_it, p);
    Seq::filter_distributes_over_add(before_it, seq![name], p);
    lemma_filter_all(before_it);
    lemma_filter_all(behind_it);
    assert forall|i: int| 0 <= i < before_it.len() implies p(#[trigger] before_it[i]) by {
        assert(before_it.contains(before_it[i]));
    }
    assert forall|i: int| 0 <= i < behind_it.len() implies p(#[trigger] behind_it[i]) by {
        assert(behind_it.contains(behind_it[i]));
    }
    assert(seq![name].filter(p) =~= Seq::<Seq<char>>::empty()) by {
        reveal(Seq::filter);
        assert(seq![name].drop_last() =~= Seq::<Seq<char>>::empty());
        assert(Seq::<Seq<char>>::empty().filter(p) =~= Seq::<Seq<char>>::empty());
    }
    assert(names.filter(p) =~= before_it + behind_it);
    let open = indent.len() + start.len();
    let close = front.len() + inner.len();
    let kept = text::join(before_it + behind_it, seq![' ']);
    assert(line.take(open as int + 1) =~= front);
    assert(line.skip(close as int) =~= seq![')'] + after);
    assert(front + kept + line.skip(close as int) =~= front + kept + seq![')'] + after);
    let body = start + seq!['('] + inner + seq![')'] + after;
    reveal_strlit("plugins=");
    assert(body[0] == 'p');
    text::lemma_trim_start_is(indent, body);
    assert(line =~= indent + body);
}

/// Where the brackets of a line that sets the plugins are.
proof fn lemma_plugins_line(
    indent: Seq<char>,
    more: Seq<char>,
    inner: Seq<char>,
    after: Seq<char>,
)
    requires
        forall|i: int| 0 <= i < indent.len() ==> text::is_space(#[trigger] indent[i]),
        !more.contains('('),
        !after.contains(')'),
    ensures
        ({
            let front = indent + ("plugins="@ + more) + seq!['('];
            let line = front + inner + seq![')'] + after;
            &&& plugin_brackets(line) == Some(
                (front.len() - 1, (front.len() + inner.len()) as int),
            )
            &&& line.subrange(front.len() as int, (front.len() + inner.len()) as int) == inner
        }),
{
    let start = "plugins="@ + more;
    let front = indent + start + seq!['('];
    let line = front + inner + seq![')'] + after;
    let body = start + seq!['('] + inner + seq![')'] + after;
    let open = front.len() - 1;
    let close = front.len() + inner.len();
    reveal_strlit("plugins=");
    assert(line =~= indent + body);
    assert(body[0] == 'p');
    text::lemma_trim_start_is(indent, body);
    assert(body.take(8) =~= "plugins="@);
    assert forall|i: int| 0 <= i < open implies #[trigger] line[i] != '(' by {
        if i < indent.len() {
            assert(line[i] == indent[i]);
        } else if i < indent.len() + 8 {
            assert(line[i] == "plugins="@[i - indent.len()]);
        } else {
            assert(line[i] == more[i - indent.len() - 8]);
            assert(more.contains(more[i - indent.len() - 8]));
        }
    }
    assert(line[open] == '(');
    text::lemma_first_at_is(line, '(', open);
    assert forall|i: int| close < i < line.len() implies #[trigger] line[i] != ')' by {
        assert(line[i] == after[i - close - 1]);
        assert(after.contains(after[i - close - 1]));
    }
    text::lemma_last_at_is(line, ')', close as int);
    assert(line.subrange(front.len() as int, close as int) =~= inner);
}

/// A list of plugins that does not name the other plugin is kept, and so is the
/// list of anything but plugins.
pub proof fn law_other_lists_are_kept(
    indent: Seq<char>,
    more: Seq<char>,
    inner: Seq<char>,
    after: Seq<char>,
    line: Seq<char>,
)
    requires
        forall|i: int| 0 <= i < indent.len() ==> text::is_space(#[trigger] indent[i]),
        !more.contains('('),
        !after.contains(')'),
        !text::words(inner).contains("zsh-autosuggestions"@),
    ensures
        without_plugin(
            indent + ("plugins="@ + more) + seq!['('] + inner + seq![')'] + after,
        ) is None,
        !text::begins(text::trim_start(line), "plugins="@) ==> without_plugin(line) is None,
        !line.contains('(') || !line.contains(')') ==> without_plugin(line) is None,
{
    lemma_plugins_line(indent, more, inner, after);
    let names = text::words(inner);
    assert forall|i: int| 0 <= i < names.len() implies other_plugin()(#[trigger] names[i]) by {
        assert(names.contains(names[i]));
    }
    lemma_filter_all(names);
    text::lemma_first_at(line, '(');
    text::lemma_last_at(line, ')');
    if !line.contains('(') && text::first_at(line, '(') < line.len() {
        assert(line.contains(line[text::first_at(line, '(')]));
    }
    if !line.contains(')') && text::last_at(line, ')') >= 0 {
        assert(line.contains(line[text::last_at(line, ')')]));
    }
}

/// A line is turned into a comment behind the white space before it, and without
/// the white space behind it.
pub proof fn law_disabled_keeps_line(indent: Seq<char>, body: Seq<char>, after: Seq<char>)
    requires
        forall|i: int| 0 <= i < indent.len() ==> text::is_space(#[trigger] indent[i]),
        forall|i: int| 0 <= i < after.len() ==> text::is_space(#[trigger] after[i]),
        body.len() > 0,
        !text::is_space(body[0]),
        !text::is_space(body.last()),
    ensures
        disabled(indent + body + after) == indent + "# disabled by shellsuggest migrate: "@ + body,
        is_disabled(indent + body + after) ==> migrated_line(indent + body + after) == indent
            + "# disabled by shellsuggest migrate: "@ + body,
{
    let line = indent + body + after;
    assert(line =~= indent + (body + after));
    text::lemma_trim_start_is(indent, body + after);
    text::lemma_trim_end_is(body, after);
    assert(line.take(indent.len() as int) =~= indent);
}

/// Line by line: each line is migrated by itself, and is counted where something
/// is done about it.
pub proof fn law_one_more_line(lines: Seq<Seq<char>>, line: Seq<char>, name: Seq<char>)
    ensures
        migrated_lines(lines.push(line)) == migrated_lines(lines).push(migrated_line(line)),
        count(lines.push(line), disables()) == count(lines, disables()) + if is_disabled(line) {
            1nat
        } else {
            0nat
        },
        count(lines.push(line), rewrites()) == count(lines, rewrites()) + if is_rewritten(line) {
            1nat
        } else {
            0nat
        },
        any(lines.push(line), loads()) <==> any(lines, loads()) || loads_shellsuggest(line),
        any(lines.push(line), sets(name)) <==> any(lines, sets(name)) || sets(name)(line),
        count(Seq::empty(), disables()) == 0 && count(Seq::empty(), rewrites()) == 0,
        !any(Seq::empty(), loads()) && !any(Seq::empty(), sets(name)),
{
    let more = lines.push(line);
    assert(more.drop_last() =~= lines);
    assert(more.last() == line);
    assert(migrated_lines(more) =~= migrated_lines(lines).push(migrated_line(line)));
    lemma_any_more(lines, line, loads());
    lemma_any_more(lines, line, sets(name));
}

proof fn lemma_any_more(lines: Seq<Seq<char>>, line: Seq<char>, p: spec_fn(Seq<char>) -> bool)
    ensures
        any(lines.push(line), p) <==> any(lines, p) || p(line),
{
    let more = lines.push(line);
    if any(lines, p) {
        let i = choose|i: int| 0 <= i < lines.len() && p(#[trigger] lines[i]);
        assert(p(more[i]));
    }
    if p(line) {
        assert(p(more[lines.len() as int]));
    }
    if any(more, p) {
        let i = choose|i: int| 0 <= i < more.len() && p(#[trigger] more[i]);
        if i < lines.len() {
            assert(p(lines[i]));
        }
    }
}

/// Each of the three warnings is given where a line, comments aside, holds what it
/// is about, and only there; none is given twice.
pub proof fn law_warned_of(lines: Seq<Seq<char>>)
    ensures
        ({
            let w = warnings_for(lines);
            &&& w.contains(
                "remove `ZSH_AUTOSUGGEST_COMPLETION_IGNORE` manually: shellsuggest does not source completion-based suggestions."@,
            ) <==> any(lines, sets("ZSH_AUTOSUGGEST_COMPLETION_IGNORE"@))
            &&& w.contains(
                "review `ZSH_AUTOSUGGEST_STRATEGY`: shellsuggest uses its own ranking pipeline instead of zsh-autosuggestions strategies."@,
            ) <==> any(lines, sets("ZSH_AUTOSUGGEST_STRATEGY"@))
            &&& w.contains(
                "review custom `ZSH_AUTOSUGGEST_*_WIDGETS`: shellsuggest keeps its own widget wrapper set."@,
            ) <==> any(lines, sets("ZSH_AUTOSUGGEST_ACCEPT_WIDGETS"@)) || any(
                lines,
                sets("ZSH_AUTOSUGGEST_CLEAR_WIDGETS"@),
            ) || any(lines, sets("ZSH_AUTOSUGGEST_EXECUTE_WIDGETS"@)) || any(
                lines,
                sets("ZSH_AUTOSUGGEST_PARTIAL_ACCEPT_WIDGETS"@),
            ) || any(lines, sets("ZSH_AUTOSUGGEST_IGNORE_WIDGETS"@))
            &&& w.no_duplicates()
            &&& w.len() <= 3
        }),
{
    let a =
        "remove `ZSH_AUTOSUGGEST_COMPLETION_IGNORE` manually: shellsuggest does not source completion-based suggestions."@;
    let b =
        "review `ZSH_AUTOSUGGEST_STRATEGY`: shellsuggest uses its own ranking pipeline instead of zsh-autosuggestions strategies."@;
    let c =
        "review custom `ZSH_AUTOSUGGEST_*_WIDGETS`: shellsuggest keeps its own widget wrapper set."@;
    assert(a[2] == 'm' && b[2] == 'v' && c[2] == 'v' && b[7] == '`' && c[7] == 'c') by {
        reveal_strlit(
            "remove `ZSH_AUTOSUGGEST_COMPLETION_IGNORE` manually: shellsuggest does not source completion-based suggestions.",
        );
        reveal_strlit(
            "review `ZSH_AUTOSUGGEST_STRATEGY`: shellsuggest uses its own ranking pipeline instead of zsh-autosuggestions strategies.",
        );
        reveal_strlit(
            "review custom `ZSH_AUTOSUGGEST_*_WIDGETS`: shellsuggest keeps its own widget wrapper set.",
        );
    }
    let x = any(lines, sets("ZSH_AUTOSUGGEST_COMPLETION_IGNORE"@));
    let y = any(lines, sets("ZSH_AUTOSUGGEST_STRATEGY"@));
    let z = sets_widgets(lines);
    let w = warnings_for(lines);
    let n: int = if x {
        1
    } else {
        0
    };
    let m: int = if y {
        n + 1
    } else {
        n
    };
    if x {
        assert(w[0] == a);
    }
    if y {
        assert(w[n] == b);
    }
    if z {
        assert(w[m] == c);
    }
}

/// A migration adds the loader where it does something about a line, and no line
/// loads the plugin yet. It changes something where more than line ends differ.
pub proof fn law_loader_is_added(contents: Seq<char>)
    ensures
        ({
            let lines = text::lines(contents);
            let m = migration_of(contents);
            let active = exists|i: int|
                0 <= i < lines.len() && (is_rewritten(#[trigger] lines[i]) || is_disabled(
                    lines[i],
                ));
            let loaded = exists|i: int|
                0 <= i < lines.len() && loads_shellsuggest(#[trigger] lines[i]);
            &&& m.added_init <==> active && !loaded
            &&& active <==> m.disabled_lines > 0 || m.removed_plugin_tokens > 0
            &&& m.disabled_lines == count(lines, disables())
            &&& m.removed_plugin_tokens == count(lines, rewrites())
            &&& m.warnings == warnings_for(lines)
            &&& m.changed <==> m.updated_contents != normalized(contents)
        }),
{
    let lines = text::lines(contents);
    lemma_count_zero(lines, disables());
    lemma_count_zero(lines, rewrites());
    let m = migration_of(contents);
    if m.disabled_lines > 0 {
        let i = choose|i: int| 0 <= i < lines.len() && disables()(#[trigger] lines[i]);
        assert(is_disabled(lines[i]));
    }
    if m.removed_plugin_tokens > 0 {
        let i = choose|i: int| 0 <= i < lines.len() && rewrites()(#[trigger] lines[i]);
        assert(is_rewritten(lines[i]));
    }
    if exists|i: int|
        0 <= i < lines.len() && (is_rewritten(#[trigger] lines[i]) || is_disabled(lines[i])) {
        let i = choose|i: int|
            0 <= i < lines.len() && (is_rewritten(#[trigger] lines[i]) || is_disabled(lines[i]));
        if is_disabled(lines[i]) {
            assert(disables()(lines[i]));
        } else {
            assert(rewrites()(lines[i]));
        }
    }
    if any(lines, loads()) {
        let i = choose|i: int| 0 <= i < lines.len() && loads()(#[trigger] lines[i]);
        assert(loads_shellsuggest(lines[i]));
    }
    if exists|i: int| 0 <= i < lines.len() && loads_shellsuggest(#[trigger] lines[i]) {
        let i = choose|i: int| 0 <= i < lines.len() && loads_shellsuggest(#[trigger] lines[i]);
        assert(loads()(lines[i]));
    }
}

/// The loader stands behind all lines, below its header, and an empty line keeps
/// it apart from a last line that holds something.
pub proof fn law_loader_comes_last(lines: Seq<Seq<char>>, header: Seq<char>)
    ensures
        ({
            let all = with_loader(lines, header);
            let n = all.len() as int;
            let apart = lines.len() > 0 && text::trim(lines.last()).len() > 0;
            &&& n == lines.len() + if apart {
                3int
            } else {
                2int
            }
            &&& all[n - 1] == "eval \"$(shellsuggest init zsh)\""@
            &&& all[n - 2] == header
            &&& apart ==> all[n - 3].len() == 0
            &&& all.take(lines.len() as int) == lines
        }),
{
    assert(with_loader(lines, header).take(lines.len() as int) =~= lines);
}

/// After a migration every line is there, in its place and migrated, and behind
/// them, where the loader was added, the loader below its header.
pub proof fn law_migrated_in_place(contents: Seq<char>)
    requires
        !contents.contains('\r'),
        migration_of(contents).updated_contents.len() > 0,
    ensures
        ({
            let lines = text::lines(contents);
            let m = migration_of(contents);
            let after = text::lines(m.updated_contents);
            let n = after.len() as int;
            &&& !m.added_init ==> n == lines.len()
            &&& n >= lines.len()
            &&& forall|i: int|
                0 <= i < lines.len() ==> #[trigger] after[i] == migrated_line(lines[i])
            &&& m.added_init ==> {
                &&& after[n - 1] == "eval \"$(shellsuggest init zsh)\""@
                &&& after[n - 2] == "# Added by `shellsuggest migrate zsh-autosuggestions`"@
                &&& lines.len() + 2 <= n <= lines.len() + 3
                &&& n == lines.len() + 3 ==> after[n - 3].len() == 0
            }
        }),
{
    let lines = text::lines(contents);
    let m = migration_of(contents);
    let migrated = migrated_lines(lines);
    let all = if m.added_init {
        with_loader(migrated, MIGRATION_HEADER@)
    } else {
        migrated
    };
    let after = text::lines(m.updated_contents);
    lemma_migrated_reads_back(contents);
    law_loader_comes_last(migrated, MIGRATION_HEADER@);
    lemma_init_line();
    assert(after =~= text::chomped(all));
    text::lemma_lines_hold(contents, '\r');
    assert forall|i: int| 0 <= i < lines.len() implies #[trigger] after[i] == migrated_line(
        lines[i],
    ) by {
        assert(all[i] == migrated[i]) by {
            assert(all.take(lines.len() as int)[i] == migrated[i]);
        }
        assert(text::chomp(lines[i]) == lines[i]) by {
            if lines[i].len() > 0 && lines[i].last() == '\r' {
                assert(lines[i].contains(lines[i][lines[i].len() - 1]));
            }
        }
        lemma_migrated_ends(lines[i]);
    }
    reveal_strlit("# Added by `shellsuggest migrate zsh-autosuggestions`");
}

/// Of a text without carriage returns only the end of its last line is put in
/// order: it is added where it is missing.
pub proof fn law_unchanged_text(contents: Seq<char>)
    requires
        !contents.contains('\r'),
    ensures
        contents.len() == 0 ==> normalized(contents) == contents,
        contents.len() > 0 && contents.last() == '\n' ==> normalized(contents) == contents,
        contents.len() > 0 && contents.last() != '\n' ==> normalized(contents) == contents.push(
            '\n',
        ),
    decreases contents.len(),
{
    lemma_separators();
    let n = text::first_at(contents, '\n');
    text::lemma_first_at(contents, '\n');
    if contents.len() > 0 {
        if n >= contents.len() {
            assert(text::join(seq![contents], "\n"@) == contents);
        } else {
            let line = contents.take(n);
            let rest = contents.skip(n + 1);
            let ls = text::lines(rest);
            assert(text::chomp(line) == line) by {
                if line.len() > 0 && line.last() == '\r' {
                    assert(contents[n - 1] == '\r');
                    assert(contents.contains(contents[n - 1]));
                }
            }
            let all = seq![line] + ls;
            assert(text::lines(contents) == all);
            assert(all.skip(1) =~= ls);
            assert(!rest.contains('\r')) by {
                if rest.contains('\r') {
                    let k = choose|k: int| 0 <= k < rest.len() && rest[k] == '\r';
                    assert(contents[n + 1 + k] == '\r');
                    assert(contents.contains(contents[n + 1 + k]));
                }
            }
            law_unchanged_text(rest);
            if rest.len() == 0 {
                assert(ls.len() == 0);
                assert(text::join(all, "\n"@) == line);
                assert(line.push('\n') =~= contents);
            } else {
                text::lemma_lines(rest);
                assert(text::join(all, "\n"@) == line + "\n"@ + text::join(ls, "\n"@));
                assert(normalized(contents) =~= line + seq!['\n'] + normalized(rest));
                assert(contents =~= line + seq!['\n'] + rest);
                assert(contents.last() == rest.last());
                assert(line + seq!['\n'] + rest.push('\n') =~= contents.push('\n'));
            }
        }
    }
}

/// What an installation does: a migration where the other plugin is active,
/// nothing where the plugin is loaded, and else the loader is added, to a file
/// that is there or to a new one.
pub proof fn law_what_init_does(contents: Seq<char>, file_exists: bool)
    ensures
        ({
            let lines = text::lines(contents);
            let m = migration_of(contents);
            let r = init_of(contents, file_exists);
            let active = exists|i: int|
                0 <= i < lines.len() && (is_rewritten(#[trigger] lines[i]) || is_disabled(
                    lines[i],
                ));
            let loaded = exists|i: int|
                0 <= i < lines.len() && loads_shellsuggest(#[trigger] lines[i]);
            &&& r.warnings == m.warnings
            &&& r.migration is Some <==> active
            &&& active ==> {
                &&& r.action == InitAction::MigrateFromZshAutosuggestions
                &&& r.changed == m.changed
                &&& r.updated_contents == m.updated_contents
                &&& r.migration == Some(m)
            }
            &&& !active && loaded ==> {
                &&& r.action == InitAction::AlreadyInstalled
                &&& !r.changed
                &&& r.updated_contents == normalized(contents)
            }
            &&& !active && !loaded ==> {
                &&& file_exists ==> r.action == InitAction::AppendInit
                &&& !file_exists ==> r.action == InitAction::CreateZshrc
                &&& r.changed <==> r.updated_contents != normalized(contents)
                &&& text::lines(r.updated_contents) == text::chomped(
                    with_loader(lines, "# Added by `shellsuggest init`"@),
                )
            }
        }),
{
    let lines = text::lines(contents);
    law_loader_is_added(contents);
    if any(lines, loads()) {
        let i = choose|i: int| 0 <= i < lines.len() && loads()(#[trigger] lines[i]);
        assert(loads_shellsuggest(lines[i]));
    }
    if exists|i: int| 0 <= i < lines.len() && loads_shellsuggest(#[trigger] lines[i]) {
        let i = choose|i: int| 0 <= i < lines.len() && loads_shellsuggest(#[trigger] lines[i]);
        assert(loads()(lines[i]));
    }
    text::lemma_lines(contents);
    lemma_loader_lines(lines, INIT_HEADER@);
}

/// The `.zshrc` is in the directory for zsh's files, white space around its name
/// aside, else in the home directory.
pub proof fn law_where_zshrc_is(
    before: Seq<char>,
    dir: Seq<char>,
    after: Seq<char>,
    home: Option<Seq<char>>,
)
    requires
        forall|i: int| 0 <= i < before.len() ==> text::is_space(#[trigger] before[i]),
        forall|i: int| 0 <= i < after.len() ==> text::is_space(#[trigger] after[i]),
        dir.len() > 0,
        dir.last() != '/',
        !text::is_space(dir[0]),
        !text::is_space(dir.last()),
    ensures
        zshrc_path(Some(before + dir + after), home) == Some(dir + "/.zshrc"@),
        zshrc_path(None, Some(dir)) == Some(dir + "/.zshrc"@),
        zshrc_path(Some(before + after), Some(dir)) == Some(dir + "/.zshrc"@),
        zshrc_path(None, None) is None,
        zshrc_path(Some(before + after), None) is None,
{
    let none = Seq::<char>::empty();
    reveal_strlit(".zshrc");
    reveal_strlit("/.zshrc");
    text::law_trim(before, dir, after);
    text::law_trim(before, none, after);
    assert(before + none + after =~= before + after);
    assert(paths::joined(dir, ".zshrc"@) =~= dir + "/.zshrc"@);
}

/// A backup has the name of the file with the time behind it, and so those that
/// are made at different times have different names; without the time, or the
/// name of the file, there is none.
pub proof fn law_backups_are_apart(path: Seq<char>, t: u64, u: u64)
    ensures
        backup_of(path, None) == Err::<Seq<char>, MigrateErrorView>(
            MigrateErrorView::ClockBeforeEpoch,
        ),
        paths::file_name_of(path) is None ==> backup_of(path, Some(t)) == Err::<
            Seq<char>,
            MigrateErrorView,
        >(MigrateErrorView::NoFileName),
        paths::file_name_of(path) is Some ==> backup_of(path, Some(t)) == Ok::<
            Seq<char>,
            MigrateErrorView,
        >(
            paths::with_file_name_of(
                path,
                paths::file_name_of(path)->0 + ".shellsuggest.bak-"@ + number::decimal(t as nat),
            ),
        ),
        t != u ==> backup_name_of(path, t) != backup_name_of(path, u),
{
    let front = path + ".shellsuggest.bak-"@;
    let n = front.len() as int;
    number::lemma_decimal(t as nat);
    number::lemma_decimal(u as nat);
    assert(backup_name_of(path, t).skip(n) =~= number::decimal(t as nat));
    assert(backup_name_of(path, u).skip(n) =~= number::decimal(u as nat));
}

} // verus!
