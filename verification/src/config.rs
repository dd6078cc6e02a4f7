//! Configuration files: the format a file's extension selects.
use vstd::prelude::*;
use crate::string_proc::format_processer::{ascii_lower, lower_char};
use crate::text::{chars_of, str_eq, string_of};

verus! {

/// The text formats of configuration files.
#[derive(Debug, Clone, Copy, PartialEq, Eq, Structural)]
pub enum ConfigFormat {
    Yaml,
    Toml,
    Json,
}

/// The format an extension names: `yaml` or `yml` for YAML, `toml` or
/// `tml` for TOML, anything else JSON.
pub open spec fn extension_format(ext: Seq<char>) -> ConfigFormat {
    if ext == "yaml"@ || ext == "yml"@ {
        ConfigFormat::Yaml
    } else if ext == "toml"@ || ext == "tml"@ {
        ConfigFormat::Toml
    } else {
        ConfigFormat::Json
    }
}

/// The format an extension selects, compared in lowercase.
pub open spec fn format_of_extension(ext: Seq<char>) -> ConfigFormat {
    extension_format(ext.map_values(|c: char| ascii_lower(c)))
}

/// The format that a (lowercase) extension names.
pub fn ext_fmt(ext: &str) -> (r: ConfigFormat)
    ensures
        r == extension_format(ext@),
{
    if str_eq(ext, "yaml") || str_eq(ext, "yml") {
        ConfigFormat::Yaml
    } else if str_eq(ext, "toml") || str_eq(ext, "tml") {
        ConfigFormat::Toml
    } else {
        ConfigFormat::Json
    }
}

/// The format of a configuration file with the given extension: the
/// extension in lowercase, as `ext_fmt` reads it.
pub fn config_format(ext: &str) -> (r: ConfigFormat)
    ensures
        r == format_of_extension(ext@),
{
    let cs = chars_of(ext);
    let mut lower: Vec<char> = Vec::new();
    let mut i: usize = 0;
    while i < cs.len()
        invariant
            0 <= i <= cs.len(),
            lower@ == cs@.take(i as int).map_values(|c: char| ascii_lower(c)),
        decreases cs.len() - i,
    {
        lower.push(lower_char(cs[i]));
        assert(cs@.take(i + 1) =~= cs@.take(i as int).push(cs@[i as int]));
        assert(lower@ =~= cs@.take(i + 1).map_values(|c: char| ascii_lower(c)));
        i = i + 1;
    }
    assert(cs@.take(cs.len() as int) =~= ext@);
    let text = string_of(lower.as_slice());
    ext_fmt(text.as_str())
}

} // verus!
