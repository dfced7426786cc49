//! The run itself: building the snapshot from an enumeration,
//! rendering the listing, and planning the mutations that the edited
//! listing asks for.  Reading the directory, invoking the editor,
//! prompting and touching the filesystem happen outside the library;
//! this module computes every decision they act on.

use crate::config::{Config, Only};
use crate::entry::{basename_spec, is_hidden_spec, prefix_keys, Entry, EntryMap, EntryView};
use crate::formatter::{escape_spec, format_spec, Formatter};
use crate::parser::{frag_of, Transform, TransformView};
use crate::util::{join_path, join_spec, push_char, same_path, same_path_spec, sha1_hex_of};
use vstd::prelude::*;

verus! {

/// A glob pattern that did not compile: the approximate character
/// index of the problem and its description.
#[derive(Debug, PartialEq, Eq, Clone)]
pub struct PatternError {
    pub pos: usize,
    pub msg: String,
}

/// Whether a glob pattern compiles; a function of its text alone.
pub uninterp spec fn glob_syntax_ok(pat: Seq<char>) -> bool;

/// Whether a glob pattern matches a name under the tool's fixed match
/// options; a function of the two texts alone.
pub uninterp spec fn glob_matches(pat: Seq<char>, name: Seq<char>) -> bool;

/// Relies on glob::Pattern::new and glob::Pattern::matches_with,
/// under glob::MatchOptions::new() (case-sensitive, no literal
/// separator or leading-dot requirement): compiling depends on the
/// pattern text alone, and matching on the pattern and name texts
/// alone.
#[verifier::external_body]
fn glob_match(pattern: &str, name: &str) -> (r: Result<bool, PatternError>)
    ensures
        r is Ok <==> glob_syntax_ok(pattern@),
        r matches Ok(b) ==> b == glob_matches(pattern@, name@),
{
    match glob::Pattern::new(pattern) {
        Ok(p) => Ok(p.matches_with(name, glob::MatchOptions::new())),
        Err(e) => Err(PatternError { pos: e.pos, msg: e.msg.to_string() }),
    }
}

/// First-match semantics over a list of globs: `Ok(true)` when some
/// glob matches and every glob before it compiles, an error when a
/// glob fails to compile before any match, `Ok(false)` when every
/// glob compiles and none matches.
pub open spec fn glob_list_matches(globs: Seq<Seq<char>>, name: Seq<char>) -> Result<bool, ()>
    decreases globs.len(),
{
    if globs.len() == 0 {
        Ok(false)
    } else if !glob_syntax_ok(globs[0]) {
        Err(())
    } else if glob_matches(globs[0], name) {
        Ok(true)
    } else {
        glob_list_matches(globs.skip(1), name)
    }
}

/// The entry a raw enumeration record stands for.
pub open spec fn entry_view_of(p: Seq<char>, is_dir: bool) -> EntryView {
    EntryView { path: p, is_dir, hash: sha1_hex_of(p) }
}

/// Whether the configuration's hidden and kind filters keep an
/// entry.  The glob filter is separate, since it can fail.
pub open spec fn passes_filters(config: Config, e: EntryView) -> bool {
    &&& (config.show_hidden || !is_hidden_spec(e))
    &&& (match config.only {
        Some(Only::Files) => !e.is_dir,
        Some(Only::Dirs) => e.is_dir,
        None => true,
    })
}

/// The entries kept from an enumeration, in order, or a failure when
/// a glob does not compile while filtering an entry that the other
/// filters keep.
pub open spec fn filtered_entries(config: Config, listing: Seq<(String, bool)>) -> Result<
    Seq<EntryView>,
    (),
>
    decreases listing.len(),
{
    if listing.len() == 0 {
        Ok(Seq::empty())
    } else {
        let e = entry_view_of(listing[0].0@, listing[0].1);
        if !passes_filters(config, e) {
            filtered_entries(config, listing.skip(1))
        } else {
            let keep = match config.globs {
                None => Ok::<bool, ()>(true),
                Some(gs) => glob_list_matches(
                    gs@.map_values(|g: String| g@),
                    basename_spec(e),
                ),
            };
            match keep {
                Err(()) => Err(()),
                Ok(false) => filtered_entries(config, listing.skip(1)),
                Ok(true) => match filtered_entries(config, listing.skip(1)) {
                    Err(()) => Err(()),
                    Ok(rest) => Ok(seq![e] + rest),
                },
            }
        }
    }
}

/// Two identifiers agree on their first `w` characters.
pub open spec fn share_prefix_spec(a: EntryView, b: EntryView, w: int) -> bool {
    a.hash.subrange(0, w) == b.hash.subrange(0, w)
}

/// The displayed short identifiers of `es` at width `w` are pairwise
/// distinct.
pub open spec fn short_ids_distinct(es: Seq<EntryView>, w: int) -> bool {
    forall|i: int, j: int|
        0 <= i < j < es.len() ==> !share_prefix_spec(#[trigger] es[i], #[trigger] es[j], w)
}

/// The run, holding its configuration.
#[derive(Debug)]
pub struct App {
    config: Config,
}

impl App {
    /// The configuration.
    pub closed spec fn spec_config(&self) -> Config {
        self.config
    }

    /// An app for one run under `config`.
    pub fn new(config: Config) -> (r: Self)
        ensures
            r.spec_config() == config,
    {
        App { config }
    }

    /// A borrow of the configuration.
    pub fn config(&self) -> (r: &Config)
        ensures
            r == self.spec_config(),
    {
        &self.config
    }

    /// Whether `entry` passes the configured globs: true without
    /// globs, else whether some glob matches the basename, trying
    /// them in order.  Fails on the first glob that does not compile.
    pub fn matches(&self, entry: &Entry) -> (r: Result<bool, PatternError>)
        ensures
            match self.spec_config().globs {
                None => r == Ok::<bool, PatternError>(true),
                Some(gs) => {
                    let spec_r = glob_list_matches(
                        gs@.map_values(|g: String| g@),
                        basename_spec(entry@),
                    );
                    match r {
                        Ok(b) => spec_r == Ok::<bool, ()>(b),
                        Err(_) => spec_r is Err,
                    }
                },
            },
    {
        match &self.config.globs {
            None => Ok(true),
            Some(globs) => {
                let ghost gsv = globs@.map_values(|g: String| g@);
                let name = entry.basename();
                let mut i: usize = 0;
                proof {
                    assert(gsv.skip(0) =~= gsv);
                }
                while i < globs.len()
                    invariant
                        self.spec_config().globs matches Some(gs) && gs@.map_values(
                            |g: String| g@,
                        ) == gsv,
                        globs@.map_values(|g: String| g@) == gsv,
                        gsv.len() == globs@.len(),
                        name@ == basename_spec(entry@),
                        i <= gsv.len(),
                        glob_list_matches(gsv, name@) == glob_list_matches(
                            gsv.skip(i as int),
                            name@,
                        ),
                    decreases gsv.len() - i,
                {
                    match glob_match(globs[i].as_str(), name.as_str()) {
                        Err(e) => {
                            proof {
                                assert(gsv.skip(i as int)[0] == gsv[i as int]);
                            }
                            return Err(e);
                        },
                        Ok(true) => {
                            proof {
                                assert(gsv.skip(i as int)[0] == gsv[i as int]);
                            }
                            return Ok(true);
                        },
                        Ok(false) => {
                            proof {
                                assert(gsv.skip(i as int)[0] == gsv[i as int]);
                                assert(gsv.skip(i as int).skip(1) =~= gsv.skip(i + 1));
                            }
                        },
                    }
                    i = i + 1;
                }
                proof {
                    assert(gsv.skip(gsv.len() as int) =~= Seq::<Seq<char>>::empty());
                }
                Ok(false)
            },
        }
    }

    /// Builds the entries of a snapshot from a raw enumeration of
    /// `(path, is-directory)` records: assigns identifiers, applies
    /// the hidden, kind and glob filters in order, and then widens
    /// the displayed identifier width until the short identifiers of
    /// the kept entries are pairwise distinct, up to the full
    /// identifier length.  The width is recomputed over the whole
    /// batch, so the guarantee covers every kept entry.
    pub fn list_entries(&mut self, listing: &Vec<(String, bool)>) -> (r: Result<
        Vec<Entry>,
        PatternError,
    >)
        requires
            old(self).spec_config().hash_width <= 40,
        ensures
            final(self).spec_config().dir == old(self).spec_config().dir,
            final(self).spec_config().transforms_path == old(self).spec_config().transforms_path,
            final(self).spec_config().editor == old(self).spec_config().editor,
            final(self).spec_config().show_hidden == old(self).spec_config().show_hidden,
            final(self).spec_config().verbose == old(self).spec_config().verbose,
            final(self).spec_config().default_answer == old(self).spec_config().default_answer,
            final(self).spec_config().dry_run == old(self).spec_config().dry_run,
            final(self).spec_config().globs == old(self).spec_config().globs,
            final(self).spec_config().only == old(self).spec_config().only,
            old(self).spec_config().hash_width <= final(self).spec_config().hash_width <= 40,
            match r {
                Ok(es) => {
                    &&& filtered_entries(old(self).spec_config(), listing@) == Ok::<_, ()>(
                        es@.map_values(|e: Entry| e@),
                    )
                    &&& forall|i: int|
                        0 <= i < es@.len() ==> (#[trigger] es@[i]@).hash.len() == 40
                    &&& (forall|i: int, j: int|
                        0 <= i < j < es@.len() ==> (#[trigger] es@[i]@).hash != (
                        #[trigger] es@[j]@).hash) ==> short_ids_distinct(
                        es@.map_values(|e: Entry| e@),
                        final(self).spec_config().hash_width as int,
                    )
                },
                Err(_) => filtered_entries(old(self).spec_config(), listing@) is Err,
            },
    {
        let ghost cfg0 = self.config;
        let ghost lst = listing@;
        let mut result: Vec<Entry> = Vec::new();
        let mut idx: usize = 0;
        proof {
            assert(lst.skip(0) =~= lst);
            if filtered_entries(cfg0, lst) is Ok {
                let rest = filtered_entries(cfg0, lst)->Ok_0;
                assert(result@.map_values(|e: Entry| e@) + rest =~= rest);
            }
        }
        while idx < listing.len()
            invariant
                cfg0 == old(self).spec_config(),
                cfg0.hash_width <= 40,
                self.config == cfg0,
                listing@ == lst,
                idx <= lst.len(),
                match filtered_entries(cfg0, lst.skip(idx as int)) {
                    Ok(rest) => filtered_entries(cfg0, lst) == Ok::<Seq<EntryView>, ()>(
                        result@.map_values(|e: Entry| e@) + rest,
                    ),
                    Err(()) => filtered_entries(cfg0, lst) is Err,
                },
                forall|i: int|
                    0 <= i < result@.len() ==> (#[trigger] result@[i]@).hash.len() == 40,
            decreases lst.len() - idx,
        {
            let ghost rest_before = lst.skip(idx as int);
            proof {
                assert(rest_before[0] == lst[idx as int]);
                assert(rest_before.skip(1) =~= lst.skip(idx + 1));
            }
            let record = &listing[idx];
            let entry = Entry::new(record.0.clone(), record.1);
            proof {
                assert(entry@ == entry_view_of(lst[idx as int].0@, lst[idx as int].1));
            }
            let mut keep: bool = true;
            if !self.config.show_hidden && entry.is_hidden() {
                keep = false;
            }
            if keep {
                match self.config.only {
                    Some(Only::Files) => {
                        if entry.is_dir() {
                            keep = false;
                        }
                    },
                    Some(Only::Dirs) => {
                        if !entry.is_dir() {
                            keep = false;
                        }
                    },
                    None => {},
                }
            }
            if keep {
                match self.matches(&entry) {
                    Err(e) => {
                        return Err(e);
                    },
                    Ok(false) => {},
                    Ok(true) => {
                        let ghost seen = result@.map_values(|e: Entry| e@);
                        result.push(entry);
                        proof {
                            assert(result@.map_values(|e: Entry| e@) =~= seen + seq![
                                entry_view_of(lst[idx as int].0@, lst[idx as int].1),
                            ]);
                            if filtered_entries(cfg0, lst.skip(idx + 1)) is Ok {
                                let rest = filtered_entries(cfg0, lst.skip(idx + 1))->Ok_0;
                                assert(seen + (seq![
                                    entry_view_of(lst[idx as int].0@, lst[idx as int].1),
                                ] + rest) =~= (seen + seq![
                                    entry_view_of(lst[idx as int].0@, lst[idx as int].1),
                                ]) + rest);
                            }
                        }
                    },
                }
            }
            idx = idx + 1;
        }
        proof {
            assert(lst.skip(lst.len() as int) =~= Seq::<(String, bool)>::empty());
            assert(result@.map_values(|e: Entry| e@) + Seq::<EntryView>::empty()
                =~= result@.map_values(|e: Entry| e@));
        }
        let mut w: usize = self.config.hash_width;
        while w < 40 && has_dup(&result, w)
            invariant
                self.config == cfg0,
                cfg0.hash_width <= w <= 40,
                forall|i: int|
                    0 <= i < result@.len() ==> (#[trigger] result@[i]@).hash.len() == 40,
            decreases 40 - w,
        {
            w = w + 1;
        }
        proof {
            let evs = result@.map_values(|e: Entry| e@);
            if forall|i: int, j: int|
                0 <= i < j < result@.len() ==> (#[trigger] result@[i]@).hash != (
                #[trigger] result@[j]@).hash {
                if w == 40 {
                    assert forall|i: int, j: int|
                        0 <= i < j < evs.len() implies !share_prefix_spec(
                        #[trigger] evs[i],
                        #[trigger] evs[j],
                        w as int,
                    ) by {
                        assert(evs[i].hash.subrange(0, 40) =~= evs[i].hash);
                        assert(evs[j].hash.subrange(0, 40) =~= evs[j].hash);
                        assert(result@[i]@.hash != result@[j]@.hash);
                    }
                }
            }
        }
        self.config.hash_width = w;
        Ok(result)
    }
}

/// One rendered listing line: under verbosity a comment line naming
/// the entry's kind and path, then the short identifier, a space, the
/// escaped basename, and a newline.
pub open spec fn render_line_spec(config: Config, e: EntryView) -> Seq<char> {
    let comment = if config.verbose {
        "# "@ + (if e.is_dir {
            "Directory"@
        } else {
            "File"@
        }) + " "@ + e.path + "\n"@
    } else {
        Seq::<char>::empty()
    };
    comment + e.hash.subrange(0, config.hash_width as int) + " "@ + escape_spec(basename_spec(e))
        + "\n"@
}

/// The rendered lines of a listing, in entry order.
pub open spec fn render_lines_spec(config: Config, es: Seq<EntryView>) -> Seq<char>
    decreases es.len(),
{
    if es.len() == 0 {
        Seq::empty()
    } else {
        render_line_spec(config, es[0]) + render_lines_spec(config, es.skip(1))
    }
}

/// The whole rendered listing: a header naming the directory, a blank
/// line, and one line per entry.
pub open spec fn render_listing_spec(config: Config, es: Seq<EntryView>) -> Seq<char> {
    "# Edit directory "@ + config.dir@ + "\n\n"@ + render_lines_spec(config, es)
}

impl App {
    /// Renders the scratch listing for `entries`.
    pub fn render_listing(&self, entries: &Vec<Entry>) -> (r: String)
        requires
            forall|i: int|
                0 <= i < entries@.len() ==> self.spec_config().hash_width <= (
                #[trigger] entries@[i]@).hash.len(),
        ensures
            r@ == render_listing_spec(self.spec_config(), entries@.map_values(|e: Entry| e@)),
    {
        let ghost cfg = self.spec_config();
        let ghost evs = entries@.map_values(|e: Entry| e@);
        let mut out = String::new();
        out.append("# Edit directory ");
        out.append(self.config.dir.as_str());
        out.append("\n\n");
        proof {
            assert(out@ =~= "# Edit directory "@ + cfg.dir@ + "\n\n"@);
            assert(evs.skip(0) =~= evs);
        }
        let mut i: usize = 0;
        while i < entries.len()
            invariant
                cfg == self.spec_config(),
                evs == entries@.map_values(|e: Entry| e@),
                forall|k: int|
                    0 <= k < entries@.len() ==> cfg.hash_width <= (
                    #[trigger] entries@[k]@).hash.len(),
                i <= evs.len(),
                render_listing_spec(cfg, evs) == out@ + render_lines_spec(
                    cfg,
                    evs.skip(i as int),
                ),
            decreases evs.len() - i,
        {
            let ghost out0 = out@;
            let entry = &entries[i];
            if self.config.verbose {
                out.append("# ");
                if entry.is_dir() {
                    out.append("Directory");
                } else {
                    out.append("File");
                }
                out.append(" ");
                out.append(entry.path());
                push_char(&mut out, '\n');
            }
            out.append(entry.hash_short(self.config.hash_width));
            push_char(&mut out, ' ');
            let escaped = Formatter::escape(entry.basename().as_str());
            out.append(escaped.as_str());
            push_char(&mut out, '\n');
            proof {
                reveal_strlit(" ");
                reveal_strlit("\n");
                assert(" "@ =~= seq![' ']);
                assert("\n"@ =~= seq!['\n']);
                assert(out@ =~= out0 + render_line_spec(cfg, evs[i as int]));
                assert(evs.skip(i as int)[0] == evs[i as int]);
                assert(evs.skip(i as int).skip(1) =~= evs.skip(i + 1));
                assert(out0 + (render_line_spec(cfg, evs[i as int]) + render_lines_spec(
                    cfg,
                    evs.skip(i + 1),
                )) =~= (out0 + render_line_spec(cfg, evs[i as int])) + render_lines_spec(
                    cfg,
                    evs.skip(i + 1),
                ));
            }
            i = i + 1;
        }
        proof {
            assert(evs.skip(evs.len() as int) =~= Seq::<EntryView>::empty());
            assert(out@ + Seq::<char>::empty() =~= out@);
        }
        out
    }
}

/// A planned mutation for one operation of the edited listing.  The
/// shell outside the library performs it: a `Rename` after checking
/// for an existing target and asking for confirmation, a `Remove`
/// recursively for directories, and a `Keep` not at all.
#[derive(Debug, PartialEq, Eq, Clone)]
pub enum Action {
    /// Rename the entry at `from` to `to`.
    Rename { from: String, to: String },
    /// Remove the entry at `path`, recursively when it is a
    /// directory.
    Remove { path: String, is_dir: bool },
    /// The expanded pattern names the entry's current path: nothing
    /// to do.
    Keep { path: String },
}

/// A failure to plan one operation: its identifier fragment did not
/// resolve, or its pattern did not expand.
#[derive(Debug, PartialEq, Eq)]
pub enum ApplyError {
    Resolve(crate::entry::Error),
    Format(crate::formatter::Error),
}

/// What planning one operation yields, at the spec level; resolve
/// failures keep only their kind, since the identifiers an ambiguity
/// lists come out of the index in an open order.
pub enum PlanOutcome {
    Keep { path: Seq<char> },
    Rename { from: Seq<char>, to: Seq<char> },
    Remove { path: Seq<char>, is_dir: bool },
    Absent,
    Ambiguous,
    BadPattern { error: crate::formatter::Error },
}

/// The length of the pattern an operation expands; zero for a
/// removal.
pub open spec fn pattern_len(tv: TransformView) -> nat {
    match tv {
        TransformView::Rename { pattern, .. } => pattern.len(),
        TransformView::Remove { .. } => 0,
    }
}

/// Total pattern length of a batch of operations.
pub open spec fn total_pattern_len(tvs: Seq<TransformView>) -> nat
    decreases tvs.len(),
{
    if tvs.len() == 0 {
        0
    } else {
        pattern_len(tvs[0]) + total_pattern_len(tvs.skip(1))
    }
}

/// Planning one operation: resolve its fragment against the index;
/// for a removal, remove the entry's path; for a rename, expand the
/// pattern with the pass's counter, join the expansion onto the
/// directory, and keep the entry when that names its current path
/// (trailing separators do not distinguish paths, so a directory
/// line left untouched stays a no-op).  The counter advances exactly
/// as expansion drives it.
pub open spec fn plan_one(
    m: Map<Seq<char>, Entry>,
    dir: Seq<char>,
    tv: TransformView,
    w: nat,
    c: nat,
) -> (PlanOutcome, nat) {
    let pk = prefix_keys(m, frag_of(tv));
    if pk.len() == 0 {
        (PlanOutcome::Absent, c)
    } else if pk.len() != 1 {
        (PlanOutcome::Ambiguous, c)
    } else {
        let e = m[pk.choose()]@;
        match tv {
            TransformView::Remove { .. } => (
                PlanOutcome::Remove { path: e.path, is_dir: e.is_dir },
                c,
            ),
            TransformView::Rename { pattern, .. } => {
                let (fr, c2) = format_spec(pattern, w, c);
                match fr {
                    Err(err) => (PlanOutcome::BadPattern { error: err }, c2),
                    Ok(out) => {
                        let to = join_spec(dir, out);
                        if same_path_spec(to, e.path) {
                            (PlanOutcome::Keep { path: e.path }, c2)
                        } else {
                            (PlanOutcome::Rename { from: e.path, to }, c2)
                        }
                    },
                }
            },
        }
    }
}

/// Planning a whole batch, in order, threading the counter.
pub open spec fn plan_all(
    m: Map<Seq<char>, Entry>,
    dir: Seq<char>,
    tvs: Seq<TransformView>,
    w: nat,
    c: nat,
) -> (Seq<PlanOutcome>, nat)
    decreases tvs.len(),
{
    if tvs.len() == 0 {
        (Seq::empty(), c)
    } else {
        let (o, c1) = plan_one(m, dir, tvs[0], w, c);
        let (rest, cf) = plan_all(m, dir, tvs.skip(1), w, c1);
        (seq![o] + rest, cf)
    }
}

/// Whether a planning result realizes a spec-level outcome for an
/// operation on fragment `frag`.
pub open spec fn outcome_matches(
    res: Result<Action, ApplyError>,
    o: PlanOutcome,
    frag: Seq<char>,
) -> bool {
    match res {
        Ok(a) => match o {
            PlanOutcome::Keep { path } => a matches Action::Keep { path: p } && p@ == path,
            PlanOutcome::Rename { from, to } => a matches Action::Rename { from: f, to: t } && f@
                == from && t@ == to,
            PlanOutcome::Remove { path, is_dir } => a matches Action::Remove {
                path: p,
                is_dir: d,
            } && p@ == path && d == is_dir,
            _ => false,
        },
        Err(ApplyError::Resolve(crate::entry::Error::Absent(h))) => o == PlanOutcome::Absent && h@
            == frag,
        Err(ApplyError::Resolve(crate::entry::Error::Ambiguous(h, _))) => o
            == PlanOutcome::Ambiguous && h@ == frag,
        Err(ApplyError::Format(e)) => o == (PlanOutcome::BadPattern { error: e }),
    }
}

impl App {
    /// Plans one operation against the snapshot index, using `fmt`
    /// for pattern expansion.
    pub fn plan_transform(
        &self,
        entries: &EntryMap,
        transform: &Transform,
        fmt: &mut Formatter,
    ) -> (r: Result<Action, ApplyError>)
        requires
            entries.wf(),
            old(fmt).spec_counter() + pattern_len(transform@) <= usize::MAX,
        ensures
            final(fmt).spec_width() == old(fmt).spec_width(),
            ({
                let (o, c2) = plan_one(
                    entries@,
                    self.spec_config().dir@,
                    transform@,
                    old(fmt).spec_width(),
                    old(fmt).spec_counter(),
                );
                &&& final(fmt).spec_counter() == c2
                &&& outcome_matches(r, o, frag_of(transform@))
            }),
            match r {
                Err(ApplyError::Resolve(crate::entry::Error::Ambiguous(h, ms))) => {
                    let pk = prefix_keys(entries@, frag_of(transform@));
                    &&& ms@.len() == pk.len()
                    &&& forall|i: int| 0 <= i < ms@.len() ==> pk.contains(#[trigger] ms@[i]@)
                    &&& forall|k: Seq<char>|
                        #[trigger] pk.contains(k) ==> exists|i: int|
                            0 <= i < ms@.len() && ms@[i]@ == k
                },
                _ => true,
            },
    {
        let ghost m = entries@;
        let ghost frag_spec = frag_of(transform@);
        let ghost pk = prefix_keys(m, frag_spec);
        let frag = transform.hash_fragment();
        let entry = match entries.get(frag) {
            Ok(e) => e,
            Err(err) => {
                return Err(ApplyError::Resolve(err));
            },
        };
        proof {
            entries.lemma_wf_finite();
            crate::entry::lemma_prefix_keys_finite(m, frag_spec);
            Set::lemma_is_singleton(pk);
            assert(pk.contains(entry@.hash));
            assert(pk.contains(pk.choose()));
            assert(pk.choose() == entry@.hash);
            assert(entries@[pk.choose()] == entry);
        }
        match transform.pattern() {
            None => Ok(Action::Remove { path: entry.path().to_owned(), is_dir: entry.is_dir() }),
            Some(pattern) => {
                let expanded = match fmt.format(pattern) {
                    Ok(s) => s,
                    Err(e) => {
                        return Err(ApplyError::Format(e));
                    },
                };
                let to = join_path(self.config.dir.as_str(), expanded.as_str());
                let from = entry.path().to_owned();
                if same_path(to.as_str(), from.as_str()) {
                    Ok(Action::Keep { path: from })
                } else {
                    Ok(Action::Rename { from, to })
                }
            },
        }
    }
}

impl App {
    /// Plans a whole batch of operations in listing order: the pad
    /// width is the digit count of the batch size, the counter starts
    /// at one, and each operation is planned with the counter the
    /// ones before it left.  A failing operation yields its error in
    /// place and planning continues.
    pub fn plan_transforms(&self, entries: &EntryMap, transforms: &Vec<Transform>) -> (r: Vec<
        Result<Action, ApplyError>,
    >)
        requires
            entries.wf(),
            1 + total_pattern_len(transforms@.map_values(|t: Transform| t@)) <= usize::MAX,
        ensures
            ({
                let tvs = transforms@.map_values(|t: Transform| t@);
                let (os, cf) = plan_all(
                    entries@,
                    self.spec_config().dir@,
                    tvs,
                    crate::util::digit_count(tvs.len()),
                    1,
                );
                &&& r@.len() == tvs.len()
                &&& forall|i: int|
                    0 <= i < r@.len() ==> outcome_matches(#[trigger] r@[i], os[i], frag_of(tvs[i]))
            }),
    {
        let ghost m = entries@;
        let ghost dir = self.spec_config().dir@;
        let ghost tvs = transforms@.map_values(|t: Transform| t@);
        let ghost w0 = crate::util::digit_count(tvs.len());
        let mut fmt = Formatter::new();
        let w = crate::util::width(transforms.len());
        fmt.width(w);
        let mut results: Vec<Result<Action, ApplyError>> = Vec::new();
        let ghost mut os_done: Seq<PlanOutcome> = Seq::empty();
        let mut i: usize = 0;
        proof {
            assert(tvs.skip(0) =~= tvs);
            assert(os_done + plan_all(m, dir, tvs, w0, 1).0 =~= plan_all(m, dir, tvs, w0, 1).0);
        }
        while i < transforms.len()
            invariant
                entries.wf(),
                m == entries@,
                dir == self.spec_config().dir@,
                tvs == transforms@.map_values(|t: Transform| t@),
                w0 == crate::util::digit_count(tvs.len()),
                fmt.spec_width() == w0,
                i <= tvs.len(),
                results@.len() == i,
                os_done.len() == i,
                forall|k: int|
                    0 <= k < i ==> outcome_matches(#[trigger] results@[k], os_done[k], frag_of(
                        tvs[k],
                    )),
                fmt.spec_counter() + total_pattern_len(tvs.skip(i as int)) + 1 <= usize::MAX + 1,
                plan_all(m, dir, tvs, w0, 1).0 == os_done + plan_all(
                    m,
                    dir,
                    tvs.skip(i as int),
                    w0,
                    fmt.spec_counter(),
                ).0,
                plan_all(m, dir, tvs, w0, 1).1 == plan_all(
                    m,
                    dir,
                    tvs.skip(i as int),
                    w0,
                    fmt.spec_counter(),
                ).1,
            decreases tvs.len() - i,
        {
            let ghost rest = tvs.skip(i as int);
            let ghost c_before = fmt.spec_counter();
            proof {
                assert(rest[0] == tvs[i as int]);
                assert(rest.skip(1) =~= tvs.skip(i + 1));
            }
            let outcome = self.plan_transform(entries, &transforms[i], &mut fmt);
            proof {
                let (o, c2) = plan_one(m, dir, tvs[i as int], w0, c_before);
                crate::formatter::lemma_format_counter(
                    match tvs[i as int] {
                        TransformView::Rename { pattern, .. } => pattern,
                        TransformView::Remove { .. } => Seq::empty(),
                    },
                    w0,
                    c_before,
                );
                os_done = os_done + seq![o];
                assert((os_done + (seq![o] + plan_all(m, dir, tvs.skip(i + 1), w0, c2).0)).len()
                    >= 0);
                assert(os_done.drop_last() + (seq![o] + plan_all(
                    m,
                    dir,
                    tvs.skip(i + 1),
                    w0,
                    c2,
                ).0) =~= os_done + plan_all(m, dir, tvs.skip(i + 1), w0, c2).0);
            }
            results.push(outcome);
            i = i + 1;
        }
        proof {
            assert(tvs.skip(tvs.len() as int) =~= Seq::<TransformView>::empty());
            assert(os_done + Seq::<PlanOutcome>::empty() =~= os_done);
            assert(plan_all(m, dir, tvs, w0, 1).0 =~= os_done);
        }
        results
    }
}

/// Whether the first `w` identifier characters of `a` and `b` agree.
fn share_prefix(a: &Entry, b: &Entry, w: usize) -> (r: bool)
    requires
        w <= a@.hash.len(),
        w <= b@.hash.len(),
    ensures
        r == share_prefix_spec(a@, b@, w as int),
{
    let ha = a.hash();
    let hb = b.hash();
    let mut i: usize = 0;
    while i < w
        invariant
            ha@ == a@.hash,
            hb@ == b@.hash,
            i <= w,
            w <= a@.hash.len(),
            w <= b@.hash.len(),
            forall|j: int| 0 <= j < i ==> a@.hash[j] == b@.hash[j],
        decreases w - i,
    {
        if ha.get_char(i) != hb.get_char(i) {
            proof {
                assert(a@.hash.subrange(0, w as int)[i as int] != b@.hash.subrange(
                    0, w as int)[i as int]);
            }
            return false;
        }
        i = i + 1;
    }
    proof {
        assert(a@.hash.subrange(0, w as int) =~= b@.hash.subrange(0, w as int));
    }
    true
}

/// Whether two entries of `es` share their first `w` identifier
/// characters.
fn has_dup(es: &Vec<Entry>, w: usize) -> (r: bool)
    requires
        forall|i: int| 0 <= i < es@.len() ==> w <= (#[trigger] es@[i]@).hash.len(),
    ensures
        r == !short_ids_distinct(es@.map_values(|e: Entry| e@), w as int),
{
    let ghost evs = es@.map_values(|e: Entry| e@);
    let n = es.len();
    let mut i: usize = 0;
    while i < n
        invariant
            evs == es@.map_values(|e: Entry| e@),
            n == es@.len(),
            i <= n,
            forall|i0: int| 0 <= i0 < es@.len() ==> w <= (#[trigger] es@[i0]@).hash.len(),
            forall|a: int, b: int|
                0 <= a < b < n && a < i ==> !share_prefix_spec(
                    #[trigger] evs[a],
                    #[trigger] evs[b],
                    w as int,
                ),
        decreases n - i,
    {
        let mut j: usize = i + 1;
        while j < n
            invariant
                evs == es@.map_values(|e: Entry| e@),
                n == es@.len(),
                i < j <= n || (i + 1 == j && j > n),
                i < n,
                forall|i0: int| 0 <= i0 < es@.len() ==> w <= (#[trigger] es@[i0]@).hash.len(),
                forall|b: int|
                    i < b < j ==> !share_prefix_spec(evs[i as int], #[trigger] evs[b], w as int),
            decreases n - j,
        {
            if share_prefix(&es[i], &es[j], w) {
                proof {
                    assert(share_prefix_spec(evs[i as int], evs[j as int], w as int));
                }
                return true;
            }
            j = j + 1;
        }
        i = i + 1;
    }
    false
}

} // verus!
