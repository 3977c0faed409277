//! The launcher's configuration, as the daemon and its clients exchange it.

use vstd::prelude::*;
use crate::entry::Entry;
use crate::text::{chars_of, range_eq, string_from};

verus! {

/// How entries are shown.
#[derive(Clone, Copy, Debug, PartialEq, Eq, Structural)]
pub enum DisplayMode {
    /// Icon, title and description.
    Full,
    /// Icon only.
    Icon,
    /// Title only.
    Lines,
    /// Icon and title.
    Compact,
}

/// The display mode used when none is configured.
pub fn default_display_mode() -> (r: DisplayMode)
    ensures
        r == DisplayMode::Full,
{
    DisplayMode::Full
}

/// Colour scheme of the launcher window.
#[derive(Clone, Debug, PartialEq, Eq)]
pub struct Colors {
    /// Background colour.
    pub background: String,
    /// Background colour under the pointer.
    pub hover: String,
    /// Background colour of the selected entry.
    pub selected: String,
    /// Text colour.
    pub text: String,
    /// Dim text colour, for descriptions.
    pub text_dim: String,
    /// Accent colour, for icons.
    pub accent: String,
}

/// Default background colour.
pub fn default_background() -> (r: String)
    ensures
        r@ == "#282c34"@,
{
    string_from("#282c34")
}

/// Default background colour under the pointer.
pub fn default_hover() -> (r: String)
    ensures
        r@ == "#3e4451"@,
{
    string_from("#3e4451")
}

/// Default background colour of the selected entry.
pub fn default_selected() -> (r: String)
    ensures
        r@ == "#4b5263"@,
{
    string_from("#4b5263")
}

/// Default text colour.
pub fn default_text() -> (r: String)
    ensures
        r@ == "#abb2bf"@,
{
    string_from("#abb2bf")
}

/// Default dim text colour.
pub fn default_text_dim() -> (r: String)
    ensures
        r@ == "#5c6370"@,
{
    string_from("#5c6370")
}

/// Default accent colour.
pub fn default_accent() -> (r: String)
    ensures
        r@ == "#61afef"@,
{
    string_from("#61afef")
}

/// The default colour scheme (One Dark).
pub open spec fn is_default_colors(c: Colors) -> bool {
    &&& c.background@ == "#282c34"@
    &&& c.hover@ == "#3e4451"@
    &&& c.selected@ == "#4b5263"@
    &&& c.text@ == "#abb2bf"@
    &&& c.text_dim@ == "#5c6370"@
    &&& c.accent@ == "#61afef"@
}

impl Default for Colors {
    fn default() -> (r: Colors)
        ensures
            is_default_colors(r),
    {
        Colors {
            background: default_background(),
            hover: default_hover(),
            selected: default_selected(),
            text: default_text(),
            text_dim: default_text_dim(),
            accent: default_accent(),
        }
    }
}

/// The launcher's configuration; requests to the daemon and its responses
/// have this shape too.
#[derive(Clone, Debug)]
pub struct Config {
    /// Run as the resident daemon; in a response, marks it as coming from
    /// the daemon.
    pub daemon: bool,
    /// Preferred icon theme.
    pub icon_theme: Option<String>,
    /// Placeholder of the search field.
    pub placeholder: Option<String>,
    /// How entries are shown.
    pub mode: DisplayMode,
    /// The entries to show; empty asks for the indexed ones.
    pub entries: Vec<Entry>,
    /// Colour scheme.
    pub colors: Colors,
}

impl Default for Config {
    fn default() -> (r: Config)
        ensures
            !r.daemon,
            r.icon_theme is None,
            r.placeholder is None,
            r.mode == DisplayMode::Full,
            r.entries@.len() == 0,
            is_default_colors(r.colors),
    {
        Config {
            daemon: false,
            icon_theme: None,
            placeholder: None,
            mode: default_display_mode(),
            entries: Vec::new(),
            colors: Colors::default(),
        }
    }
}

/// Settings given on the command line, which override the configuration
/// file.
pub struct CliOptions {
    pub daemon: bool,
    pub icon_theme: Option<String>,
    pub placeholder: Option<String>,
    pub mode: Option<DisplayMode>,
}

/// `config` with the command-line settings applied over it: a theme,
/// placeholder or mode given there replaces the configured one, the daemon
/// flag is taken from the command line, and a colour scheme read from its
/// own file replaces the configured colours.
pub fn apply_cli(config: Config, cli: CliOptions, colors: Option<Colors>) -> (r: Config)
    ensures
        r.daemon == cli.daemon,
        r.icon_theme == (if cli.icon_theme is Some { cli.icon_theme } else { config.icon_theme }),
        r.placeholder == (if cli.placeholder is Some { cli.placeholder } else { config.placeholder }),
        r.mode == (match cli.mode {
            Some(m) => m,
            None => config.mode,
        }),
        r.entries == config.entries,
        r.colors == (match colors {
            Some(c) => c,
            None => config.colors,
        }),
{
    let Config { daemon: _, icon_theme, placeholder, mode, entries, colors: configured } = config;
    Config {
        daemon: cli.daemon,
        icon_theme: match cli.icon_theme {
            Some(t) => Some(t),
            None => icon_theme,
        },
        placeholder: match cli.placeholder {
            Some(p) => Some(p),
            None => placeholder,
        },
        mode: match cli.mode {
            Some(m) => m,
            None => mode,
        },
        entries,
        colors: match colors {
            Some(c) => c,
            None => configured,
        },
    }
}

/// Formats that configuration files are read in.
#[derive(Clone, Copy, Debug, PartialEq, Eq, Structural)]
pub enum ConfigFormat {
    Toml,
    Json,
}

/// Why a configuration file's extension is refused.
#[derive(Clone, Copy, Debug, PartialEq, Eq, Structural)]
pub enum FormatError {
    /// YAML files, which are not supported yet.
    Yaml,
    /// Any other extension.
    Unsupported,
}

/// The format that a file extension names.
pub open spec fn format_of(ext: Seq<char>) -> Result<ConfigFormat, FormatError> {
    if ext == "toml"@ {
        Ok(ConfigFormat::Toml)
    } else if ext == "json"@ {
        Ok(ConfigFormat::Json)
    } else if ext == "yaml"@ || ext == "yml"@ {
        Err(FormatError::Yaml)
    } else {
        Err(FormatError::Unsupported)
    }
}

fn is_word(v: &Vec<char>, w: &str) -> (r: bool)
    ensures
        r == (v@ == w@),
{
    let x = chars_of(w);
    assert(v@.subrange(0, v.len() as int) == v@);
    range_eq(v, 0, v.len(), &x)
}

/// The format of a configuration file with extension `ext`.
pub fn config_format(ext: &str) -> (r: Result<ConfigFormat, FormatError>)
    ensures
        r == format_of(ext@),
{
    let v = chars_of(ext);
    if is_word(&v, "toml") {
        Ok(ConfigFormat::Toml)
    } else if is_word(&v, "json") {
        Ok(ConfigFormat::Json)
    } else if is_word(&v, "yaml") || is_word(&v, "yml") {
        Err(FormatError::Yaml)
    } else {
        Err(FormatError::Unsupported)
    }
}

} // verus!
