use crate::printer::str_eq;
use std::path::PathBuf;
use vstd::prelude::*;

verus! {

/// A path of the file system, carried through as it is.
#[verifier::external_type_specification]
#[verifier::external_body]
pub struct ExPathBuf(PathBuf);

/// What to do with each formatted file (a set of flags).
#[derive(Debug, Copy, Clone, PartialEq, Eq, Structural)]
pub struct PrintFlags {
    bits: u8,
}

impl PrintFlags {
    pub closed spec fn spec_bits(&self) -> u8 {
        self.bits
    }

    /// No flag: format, print nothing and write nothing.
    pub fn no_output() -> (r: PrintFlags)
        ensures
            r.spec_bits() == 0,
    {
        PrintFlags { bits: 0b0000 }
    }

    /// Write the formatted text back to the file.
    pub fn overwrite() -> (r: PrintFlags)
        ensures
            r.spec_bits() == 1,
    {
        PrintFlags { bits: 0b0001 }
    }

    /// Print each file before and after formatting.
    pub fn logs() -> (r: PrintFlags)
        ensures
            r.spec_bits() == 2,
    {
        PrintFlags { bits: 0b0010 }
    }

    /// Print what the scanner makes of each file.
    pub fn scanner_logs() -> (r: PrintFlags)
        ensures
            r.spec_bits() == 4,
    {
        PrintFlags { bits: 0b0100 }
    }

    /// Print the syntax tree of each file.
    pub fn log_ast() -> (r: PrintFlags)
        ensures
            r.spec_bits() == 8,
    {
        PrintFlags { bits: 0b1000 }
    }

    /// The flags set in either.
    pub fn union(self, other: PrintFlags) -> (r: PrintFlags)
        ensures
            r.spec_bits() == self.spec_bits() | other.spec_bits(),
    {
        PrintFlags { bits: self.bits | other.bits }
    }

    /// Whether every flag of `other` is set here.
    pub fn contains(&self, other: PrintFlags) -> (r: bool)
        ensures
            r == (self.spec_bits() & other.spec_bits() == other.spec_bits()),
    {
        self.bits & other.bits == other.bits
    }

    pub fn bits(&self) -> (r: u8)
        ensures
            r == self.spec_bits(),
    {
        self.bits
    }
}

/// Flags combined hold each of their parts, and `no_output` is held by any flags.
pub proof fn lemma_flags_union_contains(a: PrintFlags, b: PrintFlags)
    ensures
        (a.spec_bits() | b.spec_bits()) & a.spec_bits() == a.spec_bits(),
        (a.spec_bits() | b.spec_bits()) & b.spec_bits() == b.spec_bits(),
        a.spec_bits() & 0u8 == 0u8,
{
    let x = a.spec_bits();
    let y = b.spec_bits();
    assert((x | y) & x == x) by (bit_vector);
    assert((x | y) & y == y) by (bit_vector);
    assert(x & 0u8 == 0u8) by (bit_vector);
}

/// The files to format and what to do with them.
pub struct Config {
    pub files: Vec<PathBuf>,
    pub print_flags: PrintFlags,
}

impl Config {
    /// Adds a file to format, after those already there.
    pub fn load_file_path(&mut self, path: PathBuf)
        ensures
            final(self).files@ == old(self).files@.push(path),
            final(self).print_flags == old(self).print_flags,
    {
        self.files.push(path);
    }
}

/// Where the files to format come from.
#[derive(Debug, Clone, Copy, PartialEq, Eq, Structural)]
pub enum FileSource {
    /// Every `.gml` file under a directory, at any depth.
    Directory,
    /// The one file given.
    SingleFile,
}

/// Decides, from what the file system says of the path and whether a single
/// file was asked for, where the files come from, or why the path is refused.
pub fn file_source(exists: bool, is_dir: bool, do_file: bool) -> (r: Result<FileSource, &'static str>)
    ensures
        !exists ==> r == Err::<FileSource, &'static str>("Filepath given does not exist."),
        exists && is_dir && do_file ==> r == Err::<FileSource, &'static str>(
            "Passed -f or --file but gave a directory filepath.",
        ),
        exists && is_dir && !do_file ==> r == Ok::<FileSource, &'static str>(FileSource::Directory),
        exists && !is_dir && do_file ==> r == Ok::<FileSource, &'static str>(FileSource::SingleFile),
        exists && !is_dir && !do_file ==> r == Err::<FileSource, &'static str>(
            "Did not pass -f but gave a filepath. Pass -f for files.",
        ),
{
    if exists == false {
        return Err("Filepath given does not exist.");
    }
    match (is_dir, do_file) {
        (true, true) => Err("Passed -f or --file but gave a directory filepath."),
        (true, false) => Ok(FileSource::Directory),
        (false, true) => Ok(FileSource::SingleFile),
        (false, false) => Err("Did not pass -f but gave a filepath. Pass -f for files."),
    }
}

/// The extension of the files that a directory walk formats.
pub const GML_EXTENSION: &'static str = "gml";

/// Whether a file with this extension is formatted in a directory walk.
pub fn is_gml_extension(extension: &str) -> (r: bool)
    ensures
        r == (extension@ == GML_EXTENSION@),
{
    str_eq(extension, GML_EXTENSION)
}

} // verus!
