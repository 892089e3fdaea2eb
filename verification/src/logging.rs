use vstd::prelude::*;

verus! {

/// The characters of `s` with every `-` replaced by `_`.
pub open spec fn dashes_to_underscores(s: Seq<char>) -> Seq<char> {
    s.map_values(|c: char| if c == '-' { '_' } else { c })
}

/// The upper-case form of `s`, as `str::to_uppercase` gives it.
pub uninterp spec fn upper_case(s: Seq<char>) -> Seq<char>;

/// `str::replace` with the pattern `-` and the replacement `_`: each `-` of
/// `s` becomes `_`, every other character stays.
#[verifier::external_body]
fn replace_dashes(s: &str) -> (r: String)
    ensures
        r@ == dashes_to_underscores(s@),
{
    s.replace('-', "_")
}

/// `str::to_uppercase`; the result is named, not described.
#[verifier::external_body]
fn to_upper_case(s: &str) -> (r: String)
    ensures
        r@ == upper_case(s@),
{
    s.to_uppercase()
}

/// Whether two string slices hold the same characters.
fn str_equal(a: &str, b: &str) -> (r: bool)
    ensures
        r == (a@ == b@),
{
    let x = a.to_owned();
    let y = b.to_owned();
    x == y
}

/// The name of the environment variable that holds the log filter of the
/// component `name`: the name with `-` replaced by `_`, in upper case, then
/// `_LOG`.
pub fn filter_env_var_name(name: &str) -> (r: String)
    ensures
        r@ == upper_case(dashes_to_underscores(name@)) + "_LOG"@,
{
    let normalized = replace_dashes(name);
    let upper = to_upper_case(normalized.as_str());
    upper.concat("_LOG")
}

/// The log filter used when the environment sets none: the component name
/// with `-` replaced by `_`, then `=info`.
pub fn default_filter_directive(name: &str) -> (r: String)
    ensures
        r@ == dashes_to_underscores(name@) + "=info"@,
{
    let normalized = replace_dashes(name);
    normalized.concat("=info")
}

/// Log filter directives with `-` replaced by `_`, as targets are written.
pub fn normalize_directives(directives: &str) -> (r: String)
    ensures
        r@ == dashes_to_underscores(directives@),
{
    replace_dashes(directives)
}

/// Whether an event of `target` is left out of the log: outside development
/// mode, SQL query and task spawn events are.
pub fn skips_event(dev_mode: bool, target: &str) -> (r: bool)
    ensures
        r == (!dev_mode && (target@ == "sqlx:query"@ || target@ == "runtime.spawn"@)),
{
    if dev_mode {
        return false;
    }
    str_equal(target, "sqlx:query") || str_equal(target, "runtime.spawn")
}

/// The level of a log event.
#[derive(Debug, Clone, Copy, PartialEq, Eq)]
pub enum LogLevel {
    Error,
    Warn,
    Info,
    Debug,
    Trace,
}

/// The colour in which a level is shown.
#[derive(Debug, Clone, Copy, PartialEq, Eq)]
pub enum LogColor {
    Red,
    Yellow,
    Green,
    Blue,
    Purple,
}

/// The colour of each level in a coloured log.
pub open spec fn spec_level_color(level: LogLevel) -> LogColor {
    match level {
        LogLevel::Error => LogColor::Red,
        LogLevel::Warn => LogColor::Yellow,
        LogLevel::Info => LogColor::Green,
        LogLevel::Debug => LogColor::Blue,
        LogLevel::Trace => LogColor::Purple,
    }
}

/// The colour in which `level` is shown.
pub fn level_color(level: LogLevel) -> (c: LogColor)
    ensures
        c == spec_level_color(level),
        level == LogLevel::Error ==> c == LogColor::Red,
        level == LogLevel::Warn ==> c == LogColor::Yellow,
        level == LogLevel::Info ==> c == LogColor::Green,
        level == LogLevel::Debug ==> c == LogColor::Blue,
        level == LogLevel::Trace ==> c == LogColor::Purple,
{
    match level {
        LogLevel::Error => LogColor::Red,
        LogLevel::Warn => LogColor::Yellow,
        LogLevel::Info => LogColor::Green,
        LogLevel::Debug => LogColor::Blue,
        LogLevel::Trace => LogColor::Purple,
    }
}

/// No two levels are shown in the same colour.
pub proof fn lemma_level_colors_distinct(a: LogLevel, b: LogLevel)
    requires
        a != b,
    ensures
        spec_level_color(a) != spec_level_color(b),
{
}

/// The label of each level: in a coloured log every label is five
/// characters wide, padded on the left; otherwise the level's own name.
pub open spec fn spec_level_label(level: LogLevel, colorful: bool) -> Seq<char> {
    match level {
        LogLevel::Error => seq!['E', 'R', 'R', 'O', 'R'],
        LogLevel::Warn => if colorful {
            seq![' ', 'W', 'A', 'R', 'N']
        } else {
            seq!['W', 'A', 'R', 'N']
        },
        LogLevel::Info => if colorful {
            seq![' ', 'I', 'N', 'F', 'O']
        } else {
            seq!['I', 'N', 'F', 'O']
        },
        LogLevel::Debug => seq!['D', 'E', 'B', 'U', 'G'],
        LogLevel::Trace => seq!['T', 'R', 'A', 'C', 'E'],
    }
}

/// The label under which `level` is shown.
pub fn level_label(level: LogLevel, colorful: bool) -> (r: &'static str)
    ensures
        r@ == spec_level_label(level, colorful),
        level == LogLevel::Error ==> r@ == "ERROR"@,
        level == LogLevel::Warn ==> r@ == (if colorful { " WARN"@ } else { "WARN"@ }),
        level == LogLevel::Info ==> r@ == (if colorful { " INFO"@ } else { "INFO"@ }),
        level == LogLevel::Debug ==> r@ == "DEBUG"@,
        level == LogLevel::Trace ==> r@ == "TRACE"@,
{
    match level {
        LogLevel::Error => {
            proof {
                reveal_strlit("ERROR");
            }
            "ERROR"
        },
        LogLevel::Warn => if colorful {
            proof {
                reveal_strlit(" WARN");
            }
            " WARN"
        } else {
            proof {
                reveal_strlit("WARN");
            }
            "WARN"
        },
        LogLevel::Info => if colorful {
            proof {
                reveal_strlit(" INFO");
            }
            " INFO"
        } else {
            proof {
                reveal_strlit("INFO");
            }
            "INFO"
        },
        LogLevel::Debug => {
            proof {
                reveal_strlit("DEBUG");
            }
            "DEBUG"
        },
        LogLevel::Trace => {
            proof {
                reveal_strlit("TRACE");
            }
            "TRACE"
        },
    }
}

/// No two levels carry the same label, and in a coloured log every label
/// is five characters wide.
pub proof fn lemma_level_labels_distinct(a: LogLevel, b: LogLevel, colorful: bool)
    requires
        a != b,
    ensures
        spec_level_label(a, colorful) != spec_level_label(b, colorful),
        colorful ==> spec_level_label(a, colorful).len() == 5,
{
    let x = spec_level_label(a, colorful);
    let y = spec_level_label(b, colorful);
    if x == y {
        assert(x[0] == y[0]);
        assert(x.len() == y.len());
        assert(x[1] == y[1]);
    }
}

/// Whether the log is coloured: when the environment asks for it, in a
/// debug build, or when the formatter was made coloured.
pub fn uses_color(env_requests_color: bool, debug_build: bool, colorful: bool) -> (r: bool)
    ensures
        r == (env_requests_color || debug_build || colorful),
{
    env_requests_color || debug_build || colorful
}

} // verus!
