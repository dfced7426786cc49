use ded::app::{Action, App, ApplyError};
use ded::config::{Config, Only};
use ded::entry::Error as EntryError;
use ded::formatter::Error as FormatterError;
use ded::entry::{sort_entries, Entry, EntryMap};
use ded::parser::Parser;

fn config(dir: &str) -> Config {
    Config {
        dir: String::from(dir),
        transforms_path: String::new(),
        editor: String::from("vi"),
        hash_width: 8,
        show_hidden: false,
        verbose: false,
        default_answer: None,
        dry_run: false,
        globs: None,
        only: None,
    }
}

fn listing(paths: &[&str]) -> Vec<(String, bool)> {
    paths
        .iter()
        .map(|p| {
            let is_dir = p.ends_with('/');
            (String::from(p.trim_end_matches('/')), is_dir)
        })
        .collect()
}

#[test]
fn hidden() {
    let raw = listing(&[
        "/d/regular-file",
        "/d/regular-directory/",
        "/d/.hidden-file",
        "/d/.hidden-directory/",
    ]);

    let mut app = App::new(config("/d"));
    let entries = app.list_entries(&raw).unwrap();
    assert_eq!(2, entries.len());

    let mut cfg = config("/d");
    cfg.show_hidden = true;
    let mut app = App::new(cfg);
    let entries = app.list_entries(&raw).unwrap();
    assert_eq!(4, entries.len());
}

#[test]
fn only() {
    let raw = listing(&["/d/file", "/d/dir1/", "/d/dir2/", "/d/dir3/"]);

    let mut app = App::new(config("/d"));
    assert_eq!(4, app.list_entries(&raw).unwrap().len());

    let mut cfg = config("/d");
    cfg.only = Some(Only::Dirs);
    let mut app = App::new(cfg);
    assert_eq!(3, app.list_entries(&raw).unwrap().len());

    let mut cfg = config("/d");
    cfg.only = Some(Only::Files);
    let mut app = App::new(cfg);
    assert_eq!(1, app.list_entries(&raw).unwrap().len());
}

#[test]
fn match_glob() {
    let raw = listing(&["/d/foo", "/d/foobar/", "/d/baaz", "/d/bar", "/d/quuz"]);

    let mut cfg = config("/d");
    cfg.globs = Some(vec![String::from("foo*")]);
    let mut app = App::new(cfg);
    assert_eq!(2, app.list_entries(&raw).unwrap().len());

    let mut cfg = config("/d");
    cfg.globs = Some(vec![String::from("foo*"), String::from("ba*")]);
    let mut app = App::new(cfg);
    assert_eq!(4, app.list_entries(&raw).unwrap().len());
}

#[test]
fn bad_glob_fails_the_listing() {
    let raw = listing(&["/d/foo"]);
    let mut cfg = config("/d");
    cfg.globs = Some(vec![String::from("[")]);
    let mut app = App::new(cfg);
    assert!(app.list_entries(&raw).is_err());
}

#[test]
fn sorting_for_presentation() {
    let mut entries = vec![
        Entry::new(String::from("/d/.hidden"), false),
        Entry::new(String::from("/d/zoo"), true),
        Entry::new(String::from("/d/beta"), false),
        Entry::new(String::from("/d/alpha"), false),
    ];
    sort_entries(&mut entries);
    let names: Vec<String> = entries.iter().map(|e| e.basename()).collect();
    assert_eq!(vec!["alpha", "beta", "zoo/", ".hidden"], names);
}

#[test]
fn render_listing_layout() {
    let mut app = App::new(config("/d"));
    let raw = listing(&["/d/b", "/d/a", "/d/sub/"]);
    let mut entries = app.list_entries(&raw).unwrap();
    sort_entries(&mut entries);

    let text = app.render_listing(&entries);
    let lines: Vec<&str> = text.lines().collect();
    assert_eq!("# Edit directory /d", lines[0]);
    assert_eq!("", lines[1]);
    assert_eq!(format!("{} a", entries[0].hash_short(8)), lines[2]);
    assert_eq!(format!("{} b", entries[1].hash_short(8)), lines[3]);
    assert_eq!(format!("{} sub/", entries[2].hash_short(8)), lines[4]);
}

#[test]
fn render_listing_escapes_percent() {
    let mut app = App::new(config("/d"));
    let raw = listing(&["/d/100% sure"]);
    let entries = app.list_entries(&raw).unwrap();
    let text = app.render_listing(&entries);
    assert!(text.contains("100%% sure"));
}

#[test]
fn render_listing_verbose_comments() {
    let mut cfg = config("/d");
    cfg.verbose = true;
    let mut app = App::new(cfg);
    let raw = listing(&["/d/a", "/d/sub/"]);
    let mut entries = app.list_entries(&raw).unwrap();
    sort_entries(&mut entries);
    let text = app.render_listing(&entries);
    assert!(text.contains("# File /d/a\n"));
    assert!(text.contains("# Directory /d/sub\n"));
}

/// The full pipeline on an edited listing: the first entry's line gets
/// the pattern `z`, the second line loses its pattern, and the third
/// line is deleted from the listing altogether.  The plan renames the
/// first, removes the second, and leaves the third alone.
#[test]
fn end_to_end_edit() {
    let mut app = App::new(config("/d"));
    let raw = listing(&["/d/a", "/d/b", "/d/c"]);
    let mut entries = app.list_entries(&raw).unwrap();
    sort_entries(&mut entries);
    assert_eq!("a", entries[0].basename());

    // What the user left in the editor.
    let edited = format!(
        "# Edit directory /d\n\n{} z\n{}\n",
        entries[0].hash_short(8),
        entries[1].hash_short(8),
    );

    let mut parser = Parser::new(&edited);
    let transforms = parser.parse().unwrap();
    assert_eq!(2, transforms.len());

    let map = EntryMap::from_vec(entries);
    let plan = app.plan_transforms(&map, &transforms);

    assert_eq!(
        vec![
            Ok(Action::Rename {
                from: String::from("/d/a"),
                to: String::from("/d/z"),
            }),
            Ok(Action::Remove {
                path: String::from("/d/b"),
                is_dir: false,
            }),
        ],
        plan
    );
}

/// Planning is blind to the dry-run flag: suppression of the actual
/// mutation happens outside the library, so identical inputs plan
/// identically with the flag on or off.
#[test]
fn dry_run_plans_identically() {
    let raw = listing(&["/d/a", "/d/b"]);

    let mut plans = Vec::new();
    for dry_run in [false, true] {
        let mut cfg = config("/d");
        cfg.dry_run = dry_run;
        let mut app = App::new(cfg);
        let mut entries = app.list_entries(&raw).unwrap();
        sort_entries(&mut entries);
        let edited = format!(
            "{} renamed-%n\n{}\n",
            entries[0].hash_short(8),
            entries[1].hash_short(8),
        );
        let mut parser = Parser::new(&edited);
        let transforms = parser.parse().unwrap();
        let map = EntryMap::from_vec(entries);
        plans.push(app.plan_transforms(&map, &transforms));
    }

    assert_eq!(plans[0], plans[1]);
    assert_eq!(
        Ok(Action::Rename {
            from: String::from("/d/a"),
            to: String::from("/d/renamed-1"),
        }),
        plans[0][0]
    );
}

/// A pattern that expands to the entry's current path plans to keep
/// it untouched.
#[test]
fn rename_to_same_path_keeps() {
    let mut app = App::new(config("/d"));
    let raw = listing(&["/d/same"]);
    let entries = app.list_entries(&raw).unwrap();
    let edited = format!("{} same\n", entries[0].hash_short(8));
    let mut parser = Parser::new(&edited);
    let transforms = parser.parse().unwrap();
    let map = EntryMap::from_vec(entries);
    let plan = app.plan_transforms(&map, &transforms);
    assert_eq!(
        vec![Ok(Action::Keep {
            path: String::from("/d/same")
        })],
        plan
    );
}

/// A directory line left untouched still renders its basename with a
/// trailing separator; expanding it back names the same path, so the
/// plan keeps the directory.
#[test]
fn untouched_directory_line_keeps() {
    let mut app = App::new(config("/d"));
    let raw = listing(&["/d/sub/"]);
    let entries = app.list_entries(&raw).unwrap();
    assert_eq!("sub/", entries[0].basename());
    let edited = format!("{} sub/\n", entries[0].hash_short(8));
    let mut parser = Parser::new(&edited);
    let transforms = parser.parse().unwrap();
    let map = EntryMap::from_vec(entries);
    let plan = app.plan_transforms(&map, &transforms);
    assert_eq!(
        vec![Ok(Action::Keep {
            path: String::from("/d/sub")
        })],
        plan
    );
}

/// Failing operations report their error in place and the rest of the
/// batch still plans.
#[test]
fn plan_reports_per_operation_failures() {
    let mut app = App::new(config("/d"));
    let raw = listing(&["/d/a", "/d/b"]);
    let entries = app.list_entries(&raw).unwrap();
    let good = entries[1].hash_short(8).to_string();
    let edited = format!("ffffffff gone\n{} bad%q\n{} fine\n", good, good);
    let mut parser = Parser::new(&edited);
    let transforms = parser.parse().unwrap();
    let map = EntryMap::from_vec(entries);
    let plan = app.plan_transforms(&map, &transforms);

    assert_eq!(3, plan.len());
    assert_eq!(
        Err(ApplyError::Resolve(EntryError::Absent(String::from("ffffffff")))),
        plan[0]
    );
    assert_eq!(
        Err(ApplyError::Format(FormatterError::UnknownSpec('q'))),
        plan[1]
    );
    assert_eq!(
        Ok(Action::Rename {
            from: String::from("/d/b"),
            to: String::from("/d/fine"),
        }),
        plan[2]
    );
}

/// An ambiguous fragment lists every matching identifier.
#[test]
fn plan_ambiguous_fragment() {
    let app = App::new(config("/d"));
    let e1 = Entry::with_hash(String::from("abc1"), String::from("/d/x"), false);
    let e2 = Entry::with_hash(String::from("abc2"), String::from("/d/y"), false);
    let map = EntryMap::from_vec(vec![e1, e2]);
    let mut parser = Parser::new("abc\n");
    let transforms = parser.parse().unwrap();
    let plan = app.plan_transforms(&map, &transforms);
    match &plan[0] {
        Err(ApplyError::Resolve(EntryError::Ambiguous(frag, matches))) => {
            assert_eq!("abc", frag);
            let mut m = matches.clone();
            m.sort();
            assert_eq!(vec![String::from("abc1"), String::from("abc2")], m);
        }
        other => panic!("expected an ambiguous resolution, got {:?}", other),
    }
}
