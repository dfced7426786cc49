//! The resolved configuration a run works with.  Flag parsing and
//! environment lookups happen outside the library; the library only
//! consumes the result.

use crate::util::{join_path, join_spec, sha1, sha1_hex_of};
use vstd::prelude::*;

verus! {

/// Restriction of the listing to one kind of entry.
#[derive(Debug, PartialEq, Eq, Structural, Clone, Copy)]
pub enum Only {
    Dirs,
    Files,
}

/// Everything a run needs to know: the directory being edited, where
/// the scratch listing goes, the editor command, identifier width,
/// filters, and confirmation defaults.
#[derive(Debug)]
pub struct Config {
    /// The directory whose entries are edited.
    pub dir: String,
    /// Where the scratch listing file is written.
    pub transforms_path: String,
    /// The editor command.
    pub editor: String,
    /// Number of leading identifier characters displayed.
    pub hash_width: usize,
    /// Whether hidden entries are listed.
    pub show_hidden: bool,
    /// Whether per-entry comment lines are written.
    pub verbose: bool,
    /// A fixed answer to every confirmation, if one was requested.
    pub default_answer: Option<bool>,
    /// Whether filesystem mutations are suppressed.
    pub dry_run: bool,
    /// Globs restricting which entries are listed.
    pub globs: Option<Vec<String>>,
    /// Restriction to directories or files only.
    pub only: Option<Only>,
}

impl Config {
    /// Points the scratch listing below `tmp_dir`, named by the
    /// digest of the directory being edited.
    pub fn set_tmp_dir(&mut self, tmp_dir: &str)
        ensures
            final(self).transforms_path@ == join_spec(tmp_dir@, sha1_hex_of(old(self).dir@)),
            final(self).dir == old(self).dir,
            final(self).editor == old(self).editor,
            final(self).hash_width == old(self).hash_width,
            final(self).show_hidden == old(self).show_hidden,
            final(self).verbose == old(self).verbose,
            final(self).default_answer == old(self).default_answer,
            final(self).dry_run == old(self).dry_run,
            final(self).globs == old(self).globs,
            final(self).only == old(self).only,
    {
        let digest = sha1(self.dir.as_str());
        self.transforms_path = join_path(tmp_dir, digest.as_str());
    }
}

} // verus!
