//! The configuration.
use vstd::prelude::*;
use crate::number;
use crate::paths;
use crate::ranking;
use crate::text;

verus! {

pub const DEFAULT_PATH_MAX_ENTRIES: usize = 256;

pub const DEFAULT_SHOW_HIDDEN: bool = false;

pub const DEFAULT_CD_FALLBACK_MODE: &'static str = "current_dir_only";

pub const DEFAULT_MAX_CANDIDATES: usize = 5;

pub const DEFAULT_SEED_FROM_HISTFILE: bool = true;

pub const DEFAULT_HISTFILE_PATH: &'static str = "";

pub const DEFAULT_HISTORY_SEED_MAX_ENTRIES: usize = 20_000;

/// What is suggested for `cd` where the journal knows nothing.
#[derive(Debug, Clone, Copy, PartialEq, Eq, Structural)]
pub enum CdFallbackMode {
    CurrentDirOnly,
    Disabled,
}

/// The configuration.
#[derive(Debug, Clone, PartialEq, Eq)]
pub struct Config {
    pub path: PathConfig,
    pub cd: CdConfig,
    pub history: HistoryConfig,
    pub ui: UiConfig,
}

/// How directories are read.
#[derive(Debug, Clone, PartialEq, Eq)]
pub struct PathConfig {
    pub max_entries: usize,
    pub show_hidden: bool,
}

/// What is suggested for `cd`.
#[derive(Debug, Clone, PartialEq, Eq)]
pub struct CdConfig {
    pub fallback_mode: String,
}

/// What is taken from the history file.
#[derive(Debug, Clone, PartialEq, Eq)]
pub struct HistoryConfig {
    pub seed_from_histfile: bool,
    pub histfile_path: String,
    pub seed_max_entries: usize,
}

/// What is shown.
#[derive(Debug, Clone, PartialEq, Eq)]
pub struct UiConfig {
    pub max_candidates: usize,
}

/// The contents of a `Config`.
#[verifier::ext_equal]
pub struct ConfigView {
    pub max_entries: usize,
    pub show_hidden: bool,
    pub fallback_mode: Seq<char>,
    pub seed_from_histfile: bool,
    pub histfile_path: Seq<char>,
    pub seed_max_entries: usize,
    pub max_candidates: usize,
}

impl View for Config {
    type V = ConfigView;

    open spec fn view(&self) -> ConfigView {
        ConfigView {
            max_entries: self.path.max_entries,
            show_hidden: self.path.show_hidden,
            fallback_mode: self.cd.fallback_mode@,
            seed_from_histfile: self.history.seed_from_histfile,
            histfile_path: self.history.histfile_path@,
            seed_max_entries: self.history.seed_max_entries,
            max_candidates: self.ui.max_candidates,
        }
    }
}

/// What holds where nothing is configured.
pub open spec fn default_config() -> ConfigView {
    ConfigView {
        max_entries: DEFAULT_PATH_MAX_ENTRIES,
        show_hidden: DEFAULT_SHOW_HIDDEN,
        fallback_mode: DEFAULT_CD_FALLBACK_MODE@,
        seed_from_histfile: DEFAULT_SEED_FROM_HISTFILE,
        histfile_path: DEFAULT_HISTFILE_PATH@,
        seed_max_entries: DEFAULT_HISTORY_SEED_MAX_ENTRIES,
        max_candidates: DEFAULT_MAX_CANDIDATES,
    }
}

impl Default for PathConfig {
    fn default() -> (r: Self)
        ensures
            r.max_entries == DEFAULT_PATH_MAX_ENTRIES,
            r.show_hidden == DEFAULT_SHOW_HIDDEN,
    {
        PathConfig { max_entries: DEFAULT_PATH_MAX_ENTRIES, show_hidden: DEFAULT_SHOW_HIDDEN }
    }
}

impl Default for CdConfig {
    fn default() -> (r: Self)
        ensures
            r.fallback_mode@ == DEFAULT_CD_FALLBACK_MODE@,
    {
        CdConfig { fallback_mode: text::copy_str(DEFAULT_CD_FALLBACK_MODE) }
    }
}

impl Default for HistoryConfig {
    fn default() -> (r: Self)
        ensures
            r.seed_from_histfile == DEFAULT_SEED_FROM_HISTFILE,
            r.histfile_path@ == DEFAULT_HISTFILE_PATH@,
            r.seed_max_entries == DEFAULT_HISTORY_SEED_MAX_ENTRIES,
    {
        HistoryConfig {
            seed_from_histfile: DEFAULT_SEED_FROM_HISTFILE,
            histfile_path: text::copy_str(DEFAULT_HISTFILE_PATH),
            seed_max_entries: DEFAULT_HISTORY_SEED_MAX_ENTRIES,
        }
    }
}

impl Default for UiConfig {
    fn default() -> (r: Self)
        ensures
            r.max_candidates == DEFAULT_MAX_CANDIDATES,
    {
        UiConfig { max_candidates: DEFAULT_MAX_CANDIDATES }
    }
}

impl Default for Config {
    fn default() -> (r: Self)
        ensures
            r@ == default_config(),
    {
        Config {
            path: PathConfig::default(),
            cd: CdConfig::default(),
            history: HistoryConfig::default(),
            ui: UiConfig::default(),
        }
    }
}

/// What became of the configuration file.
#[derive(Debug, Clone)]
pub enum ConfigFile {
    /// There is none.
    Missing,
    /// It could not be read.
    Unreadable,
    /// What it holds is no configuration.
    Malformed,
    /// It holds this, with defaults for what it leaves out.
    Parsed { config: Config },
}

/// Why there is no configuration.
#[derive(Debug, Clone, PartialEq, Eq)]
pub enum ConfigError {
    /// The file could not be read.
    Unreadable { path: String },
    /// What the file holds is no configuration.
    Malformed { path: String },
}

impl ConfigError {
    /// The reason as text.
    pub open spec fn text(self) -> Seq<char> {
        match self {
            ConfigError::Unreadable { path } => "failed to read config from "@ + path@,
            ConfigError::Malformed { path } => "failed to parse config at "@ + path@,
        }
    }

    /// The reason as text.
    pub fn to_string(&self) -> (r: String)
        ensures
            r@ == self.text(),
    {
        let (front, path) = match self {
            ConfigError::Unreadable { path } => ("failed to read config from ", path),
            ConfigError::Malformed { path } => ("failed to parse config at ", path),
        };
        let mut out = text::chars_of(front);
        text::extend_str(&mut out, path.as_str());
        text::string_of(&out)
    }
}

/// The configuration with defaults in place of values that make no sense.
pub open spec fn normal(c: ConfigView) -> ConfigView {
    ConfigView {
        max_entries: if c.max_entries == 0 {
            DEFAULT_PATH_MAX_ENTRIES
        } else {
            c.max_entries
        },
        max_candidates: if c.max_candidates == 0 {
            DEFAULT_MAX_CANDIDATES
        } else {
            c.max_candidates
        },
        seed_max_entries: if c.seed_max_entries == 0 {
            DEFAULT_HISTORY_SEED_MAX_ENTRIES
        } else {
            c.seed_max_entries
        },
        fallback_mode: if text::trim(c.fallback_mode).len() == 0 {
            DEFAULT_CD_FALLBACK_MODE@
        } else {
            c.fallback_mode
        },
        ..c
    }
}

/// The path that a value with a leading tilde stands for.
pub open spec fn expanded(value: Seq<char>, home: Option<Seq<char>>) -> Seq<char> {
    match home {
        Some(h) if value == "~"@ => h,
        Some(h) if text::begins(value, "~/"@) => paths::joined(h, value.skip(2)),
        _ => value,
    }
}

/// Where the history file is, if it is wanted: as configured, else as the shell
/// says, else in the home directory.
pub open spec fn seed_path(
    c: ConfigView,
    histfile: Option<Seq<char>>,
    home: Option<Seq<char>>,
) -> Option<Seq<char>> {
    if !c.seed_from_histfile {
        None
    } else if text::trim(c.histfile_path).len() > 0 {
        Some(expanded(text::trim(c.histfile_path), home))
    } else {
        match histfile {
            Some(value) if text::trim(value).len() > 0 => Some(expanded(text::trim(value), home)),
            _ => match home {
                Some(h) => Some(paths::joined(h, ".zsh_history"@)),
                None => None,
            },
        }
    }
}

/// Where the configuration file is.
pub open spec fn config_path(config_home: Option<Seq<char>>, home: Option<Seq<char>>) -> Option<
    Seq<char>,
> {
    match config_home {
        Some(dir) => Some(paths::joined(dir, "shellsuggest/config.toml"@)),
        None => match home {
            Some(h) => Some(paths::joined(h, ".config/shellsuggest/config.toml"@)),
            None => None,
        },
    }
}

/// What a configuration file comes to.
pub open spec fn loaded(path: Seq<char>, file: ConfigFile, r: Result<Config, ConfigError>) -> bool {
    match file {
        ConfigFile::Missing => r is Ok && r->Ok_0@ == default_config(),
        ConfigFile::Unreadable => match r {
            Err(ConfigError::Unreadable { path: p }) => p@ == path,
            _ => false,
        },
        ConfigFile::Malformed => match r {
            Err(ConfigError::Malformed { path: p }) => p@ == path,
            _ => false,
        },
        ConfigFile::Parsed { config } => r is Ok && r->Ok_0@ == normal(config@),
    }
}

/// A truth value as text.
pub open spec fn bool_text(b: bool) -> Seq<char> {
    if b {
        "true"@
    } else {
        "false"@
    }
}

/// The configuration as the lines that are shown.
pub open spec fn config_lines(c: ConfigView, seed: Option<Seq<char>>) -> Seq<Seq<char>> {
    seq![
        "config:"@,
        "  path.max_entries = "@ + number::decimal(c.max_entries as nat),
        "  path.show_hidden = "@ + bool_text(c.show_hidden),
        "  cd.fallback_mode = "@ + c.fallback_mode,
        "  history.seed_from_histfile = "@ + bool_text(c.seed_from_histfile),
        "  history.histfile_path = "@ + match seed {
            Some(path) => path,
            None => "disabled"@,
        },
        "  history.seed_max_entries = "@ + number::decimal(c.seed_max_entries as nat),
        "  ui.max_candidates = "@ + number::decimal(c.max_candidates as nat),
    ]
}

fn is_blank(value: &String) -> (r: bool)
    ensures
        r == (text::trim(value@).len() == 0),
{
    let v = text::chars_of(value.as_str());
    let t = text::trimmed(&v);
    t.len() == 0
}

fn trimmed_text(value: &str) -> (r: String)
    ensures
        r@ == text::trim(value@),
{
    let v = text::chars_of(value);
    let t = text::trimmed(&v);
    text::string_of(&t)
}

/// The path that a value with a leading tilde stands for, given the home
/// directory.
pub fn expand_tilde(value: &str, home: Option<&str>) -> (r: String)
    ensures
        r@ == expanded(value@, ranking::slice_view(home)),
{
    let v = text::chars_of(value);
    match home {
        Some(h) => {
            if text::is_str(&v, "~") {
                text::copy_str(h)
            } else if text::starts_with_str(&v, "~/") {
                proof {
                    reveal_strlit("~/");
                }
                let tail = text::part(&v, 2, v.len());
                assert(tail@ =~= value@.skip(2));
                let rest = text::string_of(&tail);
                paths::join(h, rest.as_str())
            } else {
                text::copy_str(value)
            }
        },
        None => text::copy_str(value),
    }
}

fn line_with(front: &str, value: &Vec<char>) -> (r: Vec<char>)
    ensures
        r@ == front@ + value@,
{
    let mut out = text::chars_of(front);
    text::extend(&mut out, value);
    out
}

fn bool_chars(b: bool) -> (r: Vec<char>)
    ensures
        r@ == bool_text(b),
{
    if b {
        text::chars_of("true")
    } else {
        text::chars_of("false")
    }
}

impl Config {
    /// The configuration, given where its file is, if that is known, and what
    /// became of it.
    pub fn load(path: Option<&str>, file: ConfigFile) -> (r: Result<Config, ConfigError>)
        ensures
            match path {
                Some(p) => loaded(p@, file, r),
                None => r is Ok && r->Ok_0@ == default_config(),
            },
    {
        match path {
            Some(p) => Config::load_from_path(p, file),
            None => Ok(Config::default()),
        }
    }

    /// The configuration, given what became of the file at `path`.
    pub fn load_from_path(path: &str, file: ConfigFile) -> (r: Result<Config, ConfigError>)
        ensures
            loaded(path@, file, r),
    {
        match file {
            ConfigFile::Missing => Ok(Config::default()),
            ConfigFile::Unreadable => Err(
                ConfigError::Unreadable { path: text::copy_str(path) },
            ),
            ConfigFile::Malformed => Err(ConfigError::Malformed { path: text::copy_str(path) }),
            ConfigFile::Parsed { config } => Ok(config.normalized()),
        }
    }

    /// Where the configuration file is, given the values of `XDG_CONFIG_HOME`
    /// and `HOME`.
    pub fn default_path(config_home: Option<&str>, home: Option<&str>) -> (r: Option<String>)
        ensures
            text::option_view(r) == config_path(
                ranking::slice_view(config_home),
                ranking::slice_view(home),
            ),
    {
        match config_home {
            Some(dir) => Some(paths::join(dir, "shellsuggest/config.toml")),
            None => match home {
                Some(h) => Some(paths::join(h, ".config/shellsuggest/config.toml")),
                None => None,
            },
        }
    }

    /// What is suggested for `cd` where the journal knows nothing.
    pub fn cd_fallback_mode(&self) -> (r: CdFallbackMode)
        ensures
            r == (if self@.fallback_mode == "disabled"@ {
                CdFallbackMode::Disabled
            } else {
                CdFallbackMode::CurrentDirOnly
            }),
    {
        if text::eq_str(self.cd.fallback_mode.as_str(), "disabled") {
            CdFallbackMode::Disabled
        } else {
            CdFallbackMode::CurrentDirOnly
        }
    }

    /// Where the history file is, if it is wanted, given the values of
    /// `HISTFILE` and `HOME`.
    pub fn history_seed_path(&self, histfile: Option<&str>, home: Option<&str>) -> (r: Option<
        String,
    >)
        ensures
            text::option_view(r) == seed_path(
                self@,
                ranking::slice_view(histfile),
                ranking::slice_view(home),
            ),
    {
        if !self.history.seed_from_histfile {
            return None;
        }
        let configured = trimmed_text(self.history.histfile_path.as_str());
        if !configured.as_str().is_empty() {
            return Some(expand_tilde(configured.as_str(), home));
        }
        if let Some(value) = histfile {
            let named = trimmed_text(value);
            if !named.as_str().is_empty() {
                return Some(expand_tilde(named.as_str(), home));
            }
        }
        match home {
            Some(h) => Some(paths::join(h, ".zsh_history")),
            None => None,
        }
    }

    /// The configuration with defaults in place of values that make no sense.
    pub fn normalized(self) -> (r: Config)
        ensures
            r@ == normal(self@),
    {
        let mut c = self;
        if c.path.max_entries == 0 {
            c.path.max_entries = DEFAULT_PATH_MAX_ENTRIES;
        }
        if c.ui.max_candidates == 0 {
            c.ui.max_candidates = DEFAULT_MAX_CANDIDATES;
        }
        if c.history.seed_max_entries == 0 {
            c.history.seed_max_entries = DEFAULT_HISTORY_SEED_MAX_ENTRIES;
        }
        if is_blank(&c.cd.fallback_mode) {
            c.cd.fallback_mode = text::copy_str(DEFAULT_CD_FALLBACK_MODE);
        }
        c
    }

    /// The configuration as text, given the values of `HISTFILE` and `HOME`.
    pub fn to_text(&self, histfile: Option<&str>, home: Option<&str>) -> (r: String)
        ensures
            r@ == text::join(
                config_lines(
                    self@,
                    seed_path(
                        self@,
                        ranking::slice_view(histfile),
                        ranking::slice_view(home),
                    ),
                ),
                "\n"@,
            ),
    {
        let seed = match self.history_seed_path(histfile, home) {
            Some(path) => text::chars_of(path.as_str()),
            None => text::chars_of("disabled"),
        };
        let max_entries = number::decimal_text(self.path.max_entries as u64);
        let show_hidden = bool_chars(self.path.show_hidden);
        let fallback_mode = text::chars_of(self.cd.fallback_mode.as_str());
        let seed_from_histfile = bool_chars(self.history.seed_from_histfile);
        let seed_max_entries = number::decimal_text(self.history.seed_max_entries as u64);
        let max_candidates = number::decimal_text(self.ui.max_candidates as u64);
        let mut lines: Vec<Vec<char>> = Vec::new();
        lines.push(text::chars_of("config:"));
        lines.push(line_with("  path.max_entries = ", &max_entries));
        lines.push(line_with("  path.show_hidden = ", &show_hidden));
        lines.push(line_with("  cd.fallback_mode = ", &fallback_mode));
        lines.push(line_with("  history.seed_from_histfile = ", &seed_from_histfile));
        lines.push(line_with("  history.histfile_path = ", &seed));
        lines.push(line_with("  history.seed_max_entries = ", &seed_max_entries));
        lines.push(line_with("  ui.max_candidates = ", &max_candidates));
        assert(text::views(lines@) =~= config_lines(
            self@,
            seed_path(self@, ranking::slice_view(histfile), ranking::slice_view(home)),
        ));
        let out = text::joined(&lines, "\n");
        text::string_of(&out)
    }
}

// --------------------------------------------------------------------- laws

/// A configuration that was loaded can be worked with: no bound is zero, and
/// the mode is not blank.
pub proof fn law_loaded_is_usable(path: Seq<char>, file: ConfigFile, r: Result<Config, ConfigError>)
    requires
        loaded(path, file, r),
    ensures
        match r {
            Ok(c) => {
                &&& c@.max_entries > 0
                &&& c@.max_candidates > 0
                &&& c@.seed_max_entries > 0
                &&& text::trim(c@.fallback_mode).len() > 0
            },
            Err(_) => true,
        },
{
    lemma_default_mode();
}

proof fn lemma_default_mode()
    ensures
        text::trim(DEFAULT_CD_FALLBACK_MODE@).len() > 0,
{
    let s = DEFAULT_CD_FALLBACK_MODE@;
    reveal_strlit("current_dir_only");
    assert(s[0] == 'c');
    assert(text::trim_start(s) == s);
    assert(s.last() == 'y');
    assert(text::trim_end(s) == s);
}

/// To put defaults in place a second time changes nothing, and the defaults
/// make sense.
pub proof fn law_normal_once(c: ConfigView)
    ensures
        normal(normal(c)) == normal(c),
        normal(default_config()) == default_config(),
{
    lemma_default_mode();
}

/// What is configured holds, but for bounds of zero and a blank mode, for which
/// the defaults hold.
pub proof fn law_configured_holds(c: ConfigView)
    ensures
        ({
            let n = normal(c);
            &&& n.show_hidden == c.show_hidden
            &&& n.seed_from_histfile == c.seed_from_histfile
            &&& n.histfile_path == c.histfile_path
            &&& c.max_entries > 0 ==> n.max_entries == c.max_entries
            &&& c.max_entries == 0 ==> n.max_entries == 256
            &&& c.max_candidates > 0 ==> n.max_candidates == c.max_candidates
            &&& c.max_candidates == 0 ==> n.max_candidates == 5
            &&& c.seed_max_entries > 0 ==> n.seed_max_entries == c.seed_max_entries
            &&& c.seed_max_entries == 0 ==> n.seed_max_entries == 20_000
            &&& text::trim(c.fallback_mode).len() > 0 ==> n.fallback_mode == c.fallback_mode
            &&& text::trim(c.fallback_mode).len() == 0 ==> n.fallback_mode == "current_dir_only"@
            &&& default_config().max_entries == 256 && default_config().max_candidates == 5
            &&& default_config().seed_max_entries == 20_000 && !default_config().show_hidden
            &&& default_config().seed_from_histfile && default_config().histfile_path == ""@
            &&& default_config().fallback_mode == "current_dir_only"@
        }),
{
}

/// A tilde stands for the home directory, alone or before a slash, and for
/// nothing else; without a home directory it stands for itself.
pub proof fn law_tilde(home: Seq<char>, rest: Seq<char>, other: Seq<char>)
    requires
        home.len() > 0,
        home.last() != '/',
        rest.len() > 0,
        rest[0] != '/',
    ensures
        expanded(seq!['~'], Some(home)) == home,
        expanded(seq!['~', '/'] + rest, Some(home)) == home + seq!['/'] + rest,
        expanded(other, None) == other,
        other != seq!['~'] && !(other.len() >= 2 && other[0] == '~' && other[1] == '/') ==> expanded(
            other,
            Some(home),
        ) == other,
{
    reveal_strlit("~");
    reveal_strlit("~/");
    assert("~"@ =~= seq!['~']);
    let value = seq!['~', '/'] + rest;
    assert(value.take(2) =~= "~/"@);
    assert(value.skip(2) =~= rest);
    assert(value.len() != 1);
    paths::law_join_is_below(home, rest);
    assert(home.push('/') =~= home + seq!['/']);
    if text::begins(other, "~/"@) {
        assert(other.take(2)[0] == other[0] && other.take(2)[1] == other[1]);
    }
}

/// The history file is the one that is configured, else the one that the shell
/// names, each without the white space around it and with its tilde replaced,
/// else `.zsh_history` in the home directory; none where it is not wanted.
pub proof fn law_history_file(
    c: ConfigView,
    before: Seq<char>,
    name: Seq<char>,
    after: Seq<char>,
    histfile: Option<Seq<char>>,
    home: Option<Seq<char>>,
)
    requires
        forall|i: int| 0 <= i < before.len() ==> text::is_space(#[trigger] before[i]),
        forall|i: int| 0 <= i < after.len() ==> text::is_space(#[trigger] after[i]),
        name.len() > 0,
        !text::is_space(name[0]),
        !text::is_space(name.last()),
    ensures
        !c.seed_from_histfile ==> seed_path(c, histfile, home) is None,
        c.seed_from_histfile && c.histfile_path == before + name + after ==> seed_path(
            c,
            histfile,
            home,
        ) == Some(expanded(name, home)),
        c.seed_from_histfile && c.histfile_path == before + after ==> {
            &&& seed_path(c, Some(before + name + after), home) == Some(expanded(name, home))
            &&& seed_path(c, Some(before + after), home) == seed_path(c, None, home)
            &&& seed_path(c, None, None) is None
            &&& home is Some && home->0.len() > 0 && home->0.last() != '/' ==> seed_path(
                c,
                None,
                home,
            ) == Some(home->0 + "/.zsh_history"@)
        },
{
    let none = Seq::<char>::empty();
    text::law_trim(before, name, after);
    text::law_trim(before, none, after);
    assert(before + none + after =~= before + after);
    reveal_strlit(".zsh_history");
    reveal_strlit("/.zsh_history");
    if home is Some && home->0.len() > 0 && home->0.last() != '/' {
        paths::law_join_is_below(home->0, ".zsh_history"@);
        assert(home->0.push('/') + ".zsh_history"@ =~= home->0 + "/.zsh_history"@);
    }
}

/// The configuration file is below the directory for configuration, else below
/// `.config` in the home directory.
pub proof fn law_config_file(dir: Seq<char>, home: Option<Seq<char>>)
    requires
        dir.len() > 0,
        dir.last() != '/',
    ensures
        config_path(Some(dir), home) == Some(dir + "/shellsuggest/config.toml"@),
        config_path(None, Some(dir)) == Some(dir + "/.config/shellsuggest/config.toml"@),
        config_path(None, None) is None,
{
    reveal_strlit("shellsuggest/config.toml");
    reveal_strlit("/shellsuggest/config.toml");
    reveal_strlit(".config/shellsuggest/config.toml");
    reveal_strlit("/.config/shellsuggest/config.toml");
    paths::law_join_is_below(dir, "shellsuggest/config.toml"@);
    paths::law_join_is_below(dir, ".config/shellsuggest/config.toml"@);
    assert(dir.push('/') + "shellsuggest/config.toml"@ =~= dir + "/shellsuggest/config.toml"@);
    assert(dir.push('/') + ".config/shellsuggest/config.toml"@ =~= dir
        + "/.config/shellsuggest/config.toml"@);
}

/// A file that is there and cannot be used is an error that names it; one that
/// is not there leaves the defaults; any other is what was read, put in order.
pub proof fn law_file_decides(path: Seq<char>, file: ConfigFile, r: Result<Config, ConfigError>)
    requires
        loaded(path, file, r),
    ensures
        r is Err <==> file is Unreadable || file is Malformed,
        file is Unreadable ==> r->Err_0.text() == "failed to read config from "@ + path,
        file is Malformed ==> r->Err_0.text() == "failed to parse config at "@ + path,
        file is Missing ==> r->Ok_0@ == default_config(),
        file is Parsed ==> r->Ok_0@ == normal(file->config@),
{
}

/// The configuration is shown setting by setting, the history file as the path
/// that it comes to.
pub proof fn law_settings_are_shown(c: ConfigView, seed: Option<Seq<char>>)
    ensures
        ({
            let l = config_lines(c, seed);
            &&& l.len() == 8
            &&& l[0] == "config:"@
            &&& l[1] == "  path.max_entries = "@ + number::decimal(c.max_entries as nat)
            &&& l[2] == "  path.show_hidden = "@ + (if c.show_hidden {
                "true"@
            } else {
                "false"@
            })
            &&& l[3] == "  cd.fallback_mode = "@ + c.fallback_mode
            &&& l[4] == "  history.seed_from_histfile = "@ + (if c.seed_from_histfile {
                "true"@
            } else {
                "false"@
            })
            &&& seed is Some ==> l[5] == "  history.histfile_path = "@ + seed->0
            &&& seed is None ==> l[5] == "  history.histfile_path = "@ + "disabled"@
            &&& l[6] == "  history.seed_max_entries = "@ + number::decimal(
                c.seed_max_entries as nat,
            )
            &&& l[7] == "  ui.max_candidates = "@ + number::decimal(c.max_candidates as nat)
        }),
{
}

} // verus!
