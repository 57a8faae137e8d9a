use crate::printer::str_eq;
use vstd::prelude::*;

verus! {

/// The formatting choices a project can make.
#[derive(Debug)]
pub struct LangConfig {
    /// Indent with spaces rather than tabs.
    pub use_spaces: bool,
    /// Spaces per level of indentation, when indenting with spaces.
    pub space_size: usize,
    /// Newlines that end the formatted output.
    pub newlines_at_end: usize,
}

/// By default, indentation is with spaces.
pub fn use_spaces() -> (r: bool)
    ensures
        r == true,
{
    true
}

/// By default, a level of indentation is four spaces.
pub fn space_size() -> (r: usize)
    ensures
        r == 4,
{
    4
}

/// By default, the output ends with one newline.
pub fn newlines_at_end() -> (r: usize)
    ensures
        r == 1,
{
    1
}

impl Default for LangConfig {
    fn default() -> (r: Self)
        ensures
            r.use_spaces == true,
            r.space_size == 4,
            r.newlines_at_end == 1,
    {
        LangConfig { use_spaces: true, space_size: 4, newlines_at_end: 1 }
    }
}

/// Whether a file of this name holds the formatting configuration.
pub fn is_config_file_name(name: &str) -> (r: bool)
    ensures
        r == (name@ == "gml_fmt.toml"@ || name@ == ".gml_fmt.toml"@ || name@ == ".gml_fmt"@),
{
    str_eq(name, "gml_fmt.toml") || str_eq(name, ".gml_fmt.toml") || str_eq(name, ".gml_fmt")
}

} // verus!
