//! The run's configuration and the path filter.
//!
//! A `Settings` value is constructed once, from fully resolved options (the
//! command-line layer is outside this library), and is read-only afterwards.
//! The filter decides which directories are descended into and which files
//! are accepted, and derives the aggregation key of a file name: its
//! extension — or the whole name when it has none — lowered to ASCII
//! lower case. The filter and the aggregation step share this one
//! derivation.

use vstd::prelude::*;
use vstd::string::StrSliceExecFns;
use vstd::string::StringExecFns;

use crate::text::contains_name;
use crate::text::ext_key;
use crate::text::last_char_position;
use crate::text::to_lowercase_ascii;

verus! {

/// True when some entry of `list` has exactly the characters `name`.
pub open spec fn name_in(list: Seq<String>, name: Seq<char>) -> bool {
    exists|i: int| 0 <= i < list.len() && list[i]@ == name
}

/// The default extension allow-list, already without the leading dot.
pub open spec fn default_extensions() -> Seq<Seq<char>> {
    seq![
        "sh"@,
        "js"@,
        "tcl"@,
        "pl"@,
        "py"@,
        "rb"@,
        "c"@,
        "cpp"@,
        "h"@,
        "rc"@,
        "rci"@,
        "dlg"@,
        "pas"@,
        "dpr"@,
        "cs"@,
        "rs"@,
    ]
}

/// The default set of directory names that are never descended into.
pub open spec fn default_ignore_dirs() -> Seq<Seq<char>> {
    seq![".hg"@, ".svn"@, ".git"@, ".bzr"@, "node_modules"@, "target"@]
}

/// The resolved configuration of one run.
pub struct Settings {
    /// Root path of the tree, as the caller resolved it.
    pub root: String,
    /// Whether every inspected file is listed as it is measured.
    pub listing: bool,
    /// Whether output is rendered as markup rather than plain text.
    pub enable_html: bool,
    /// How many files the ranking shows; 0 disables ranking.
    pub ranking: u32,
    /// Whether the per-extension summary is shown.
    pub summary: bool,
    /// Whether the line-count distribution is shown.
    pub enable_distrib: bool,
    /// Extension allow-list, without leading dots.
    pub extensions: Vec<String>,
    /// Directory names that are never descended into.
    pub ignore_dirs: Vec<String>,
    /// Whether counts are rendered in human-readable form.
    pub human_readable: bool,
    /// Whether a file's size figure is its decoded character count rather
    /// than its byte length.
    pub utf8: bool,
}

impl Settings {
    /// Builds the configuration from resolved options: the default
    /// extensions and ignored directory names are always seeded, user
    /// extensions are added with their first character (the dot) dropped,
    /// and user ignore names are added as given.
    pub fn from_options(
        root: String,
        listing: bool,
        enable_html: bool,
        ranking: u32,
        no_summary: bool,
        no_distrib: bool,
        extensions: &Vec<String>,
        ignore_dirs: &Vec<String>,
        human_readable: bool,
        utf8: bool,
    ) -> (r: Settings)
        requires
            forall|i: int| 0 <= i < extensions@.len() ==> extensions@[i]@.len() >= 1,
        ensures
            r.root == root,
            r.listing == listing,
            r.enable_html == enable_html,
            r.ranking == ranking,
            r.summary == !no_summary,
            r.enable_distrib == !no_distrib,
            r.human_readable == human_readable,
            r.utf8 == utf8,
            r.extensions@.len() == 16 + extensions@.len(),
            forall|i: int|
                0 <= i < 16 ==> #[trigger] r.extensions@[i]@ == default_extensions()[i],
            forall|i: int|
                0 <= i < extensions@.len() ==> #[trigger] r.extensions@[16 + i]@
                    == extensions@[i]@.drop_first(),
            r.ignore_dirs@.len() == 6 + ignore_dirs@.len(),
            forall|i: int|
                0 <= i < 6 ==> #[trigger] r.ignore_dirs@[i]@ == default_ignore_dirs()[i],
            forall|i: int|
                0 <= i < ignore_dirs@.len() ==> #[trigger] r.ignore_dirs@[6 + i]@
                    == ignore_dirs@[i]@,
    {
        let mut exts: Vec<String> = Vec::new();
        exts.push(String::from_str("sh"));
        exts.push(String::from_str("js"));
        exts.push(String::from_str("tcl"));
        exts.push(String::from_str("pl"));
        exts.push(String::from_str("py"));
        exts.push(String::from_str("rb"));
        exts.push(String::from_str("c"));
        exts.push(String::from_str("cpp"));
        exts.push(String::from_str("h"));
        exts.push(String::from_str("rc"));
        exts.push(String::from_str("rci"));
        exts.push(String::from_str("dlg"));
        exts.push(String::from_str("pas"));
        exts.push(String::from_str("dpr"));
        exts.push(String::from_str("cs"));
        exts.push(String::from_str("rs"));
        let mut i: usize = 0;
        while i < extensions.len()
            invariant
                i <= extensions@.len(),
                forall|j: int| 0 <= j < extensions@.len() ==> extensions@[j]@.len() >= 1,
                exts@.len() == 16 + i,
                forall|j: int| 0 <= j < 16 ==> #[trigger] exts@[j]@ == default_extensions()[j],
                forall|j: int|
                    0 <= j < i ==> #[trigger] exts@[16 + j]@ == extensions@[j]@.drop_first(),
            decreases extensions@.len() - i,
        {
            let e = &extensions[i];
            let stripped = e.as_str().substring_char(1, e.as_str().unicode_len());
            proof {
                assert(extensions@[i as int]@.subrange(
                    1,
                    extensions@[i as int]@.len() as int,
                ) =~= extensions@[i as int]@.drop_first());
            }
            exts.push(stripped.to_owned());
            i = i + 1;
        }
        let mut ign: Vec<String> = Vec::new();
        ign.push(String::from_str(".hg"));
        ign.push(String::from_str(".svn"));
        ign.push(String::from_str(".git"));
        ign.push(String::from_str(".bzr"));
        ign.push(String::from_str("node_modules"));
        ign.push(String::from_str("target"));
        let mut i: usize = 0;
        while i < ignore_dirs.len()
            invariant
                i <= ignore_dirs@.len(),
                ign@.len() == 6 + i,
                forall|j: int| 0 <= j < 6 ==> #[trigger] ign@[j]@ == default_ignore_dirs()[j],
                forall|j: int| 0 <= j < i ==> #[trigger] ign@[6 + j]@ == ignore_dirs@[j]@,
            decreases ignore_dirs@.len() - i,
        {
            ign.push(ignore_dirs[i].clone());
            i = i + 1;
        }
        Settings {
            root,
            listing,
            enable_html,
            ranking,
            summary: !no_summary,
            enable_distrib: !no_distrib,
            extensions: exts,
            ignore_dirs: ign,
            human_readable,
            utf8,
        }
    }

    /// Whether the walk may descend into a directory of this name: it may
    /// unless the name is one of the ignored directory names.
    pub fn accepts_directory(&self, name: &str) -> (r: bool)
        ensures
            r == !name_in(self.ignore_dirs@, name@),
    {
        !contains_name(&self.ignore_dirs, name)
    }

    /// The aggregation key of a file of this name, when the file is in
    /// scope: the name's extension — or the whole name when it has none —
    /// lowered, provided that key is in the extension allow-list.
    pub fn accepts_file(&self, name: &str) -> (r: Option<String>)
        ensures
            match r {
                Some(k) => name_in(self.extensions@, ext_key(name@)) && k@ == ext_key(name@),
                None => !name_in(self.extensions@, ext_key(name@)),
            },
    {
        let key = ext_key_of(name);
        if contains_name(&self.extensions, key.as_str()) {
            Some(key)
        } else {
            None
        }
    }
}

/// Computes the aggregation key of a file name: the characters after the
/// last dot — or the whole name when there is no dot past the first
/// character — lowered to ASCII lower case.
pub fn ext_key_of(name: &str) -> (k: String)
    ensures
        k@ == ext_key(name@),
{
    let len = name.unicode_len();
    match last_char_position(name, '.') {
        Some(d) if d >= 1 => {
            let ext = name.substring_char(d + 1, len);
            proof {
                assert(name@.subrange(d + 1, name@.len() as int) =~= name@.skip(d + 1));
            }
            to_lowercase_ascii(ext)
        },
        _ => to_lowercase_ascii(name),
    }
}

} // verus!
