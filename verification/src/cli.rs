//! The settings of a run, and the defaults of those that are not given.

use crate::chars::{append_str, chars_of, string_of, texts_of};
use vstd::prelude::*;

verus! {

/// The name of the default domain where none is given.
pub const DEFAULT_DOMAIN: &'static str = "default";

/// The root of the source tree where none is given: the current directory.
pub const DEFAULT_PATH: &'static str = ".";

/// What ends the name of the file of a template.
pub const POT_SUFFIX: &'static str = ".pot";

/// The patterns that exclude a file where none are given: a file is left
/// out where one of them stands in its path.
pub open spec fn default_exclude_texts() -> Seq<Seq<char>> {
    seq![
        "/.git/"@,
        "/node_modules/"@,
        "/__tests__/"@,
        ".test."@,
        "/__mocks__/"@,
        ".mock."@,
        ".story."@,
        ".cy."@,
    ]
}

/// The patterns that exclude a file where none are given.
pub fn default_exclude() -> (r: Vec<String>)
    ensures
        texts_of(r@) == default_exclude_texts(),
{
    let mut r: Vec<String> = Vec::new();
    r.push(string_of(&chars_of("/.git/")));
    r.push(string_of(&chars_of("/node_modules/")));
    r.push(string_of(&chars_of("/__tests__/")));
    r.push(string_of(&chars_of(".test.")));
    r.push(string_of(&chars_of("/__mocks__/")));
    r.push(string_of(&chars_of(".mock.")));
    r.push(string_of(&chars_of(".story.")));
    r.push(string_of(&chars_of(".cy.")));
    assert(texts_of(r@) =~= default_exclude_texts());
    r
}

/// The arguments of a run, as they were given.
#[derive(Debug)]
pub struct Cli {
    /// The patterns that exclude a file.
    pub exclude: Vec<String>,
    /// The root of the source tree.
    pub path: Option<String>,
    /// The folder to which the templates are written, one file for each
    /// domain.
    pub output_folder: String,
    /// The folder to which the references are relative.
    pub references_relative_to: Option<String>,
    /// The domain of the messages that name none.
    pub default_domain: String,
}

/// The settings of a run.
#[derive(Debug)]
pub struct Settings {
    pub exclude: Vec<String>,
    pub path: String,
    pub output_folder: String,
    pub references_relative_to: String,
    pub default_domain: String,
}

impl Cli {
    /// The settings that the arguments stand for: the root of the source
    /// tree is the current directory where none is given, and the references
    /// are relative to the output folder where no other folder is given.
    pub fn settings(self) -> (r: Settings)
        ensures
            r.exclude@ == self.exclude@,
            r.path@ == (match self.path {
                Some(p) => p@,
                None => DEFAULT_PATH@,
            }),
            r.output_folder@ == self.output_folder@,
            r.references_relative_to@ == (match self.references_relative_to {
                Some(p) => p@,
                None => self.output_folder@,
            }),
            r.default_domain@ == self.default_domain@,
    {
        let Cli { exclude, path, output_folder, references_relative_to, default_domain } = self;
        let path = match path {
            Some(p) => p,
            None => string_of(&chars_of(DEFAULT_PATH)),
        };
        let references_relative_to = match references_relative_to {
            Some(p) => p,
            None => output_folder.clone(),
        };
        Settings { exclude, path, output_folder, references_relative_to, default_domain }
    }
}

/// The name of the file that holds the template of the domain `domain`.
pub fn pot_file_name(domain: &str) -> (r: String)
    ensures
        r@ == domain@ + POT_SUFFIX@,
{
    let mut out: Vec<char> = Vec::new();
    append_str(&mut out, domain);
    append_str(&mut out, POT_SUFFIX);
    string_of(&out)
}

} // verus!
