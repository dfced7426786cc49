use ded::entry::{Entry, EntryMap, Error};

#[test]
fn get_all() {
    let foo = Entry::with_hash(String::from("foo"), String::from("/foo"), false);
    let foobar = Entry::with_hash(String::from("foobar"), String::from("/foo/bar"), false);
    let bar = Entry::with_hash(String::from("bar"), String::from("/bar"), false);

    let mut map = EntryMap::new();

    map.insert(foo.clone());
    map.insert(foobar.clone());
    map.insert(bar.clone());

    let by_hash = |e: &Entry| e.hash().to_string();

    let mut expected;
    let mut result;

    expected = vec![foo.clone(), foobar.clone()];
    result = map.get_all("foo");
    expected.sort_by_key(by_hash);
    result.sort_by_key(by_hash);
    assert_eq!(expected, result);

    expected = vec![foobar.clone()];
    result = map.get_all("foobar");
    expected.sort_by_key(by_hash);
    result.sort_by_key(by_hash);
    assert_eq!(expected, result);

    expected = vec![bar.clone()];
    result = map.get_all("bar");
    expected.sort_by_key(by_hash);
    result.sort_by_key(by_hash);
    assert_eq!(expected, result);

    expected = vec![foo.clone(), bar.clone(), foobar.clone()];
    result = map.get_all("");
    expected.sort_by_key(by_hash);
    result.sort_by_key(by_hash);
    assert_eq!(expected, result);
}

#[test]
fn get() {
    let mut map = EntryMap::new();
    let entry = Entry::new(String::from("/root"), false);
    let hash_short = entry.hash_short(8).to_string();

    map.insert(entry.clone());

    assert!(map.get(&hash_short).is_ok());
    assert!(map.get("derp").is_err());

    map.insert(Entry::with_hash(
        hash_short.clone(),
        String::from("/root/foo"),
        false,
    ));

    assert!(map.get(&hash_short).is_err());
}

#[test]
fn resolve_prefixes() {
    let foo = Entry::with_hash(String::from("foo"), String::from("/foo"), false);
    let foobar = Entry::with_hash(String::from("foobar"), String::from("/foo/bar"), false);
    let bar = Entry::with_hash(String::from("bar"), String::from("/bar"), false);

    let map = EntryMap::from_vec(vec![foo.clone(), foobar.clone(), bar.clone()]);

    match map.get("foo") {
        Err(Error::Ambiguous(frag, mut matches)) => {
            assert_eq!("foo", frag);
            matches.sort();
            assert_eq!(vec![String::from("foo"), String::from("foobar")], matches);
        }
        other => panic!("expected an ambiguous resolution, got {:?}", other),
    }

    assert_eq!(Ok(foobar.clone()), map.get("foobar"));
    assert_eq!(Ok(bar.clone()), map.get("bar"));

    match map.get("qux") {
        Err(Error::Absent(frag)) => assert_eq!("qux", frag),
        other => panic!("expected an absent resolution, got {:?}", other),
    }
}

#[test]
fn insert_reports_new_keys() {
    let mut map = EntryMap::new();
    let a = Entry::with_hash(String::from("aa"), String::from("/a"), false);
    let a2 = Entry::with_hash(String::from("aa"), String::from("/other"), false);

    assert!(map.insert(a));
    assert!(!map.insert(a2));

    // The later insertion won: the entry under "aa" is now /other.
    assert_eq!("/other", map.get("aa").unwrap().path());
}

#[test]
fn basename_and_hidden() {
    let file = Entry::new(String::from("/srv/data/report.txt"), false);
    assert_eq!("report.txt", file.basename());
    assert!(!file.is_hidden());

    let dir = Entry::new(String::from("/srv/data/archive"), true);
    assert_eq!("archive/", dir.basename());
    assert!(!dir.is_hidden());

    let hidden = Entry::new(String::from("/srv/data/.git"), true);
    assert_eq!(".git/", hidden.basename());
    assert!(hidden.is_hidden());

    let bare = Entry::new(String::from("name-only"), false);
    assert_eq!("name-only", bare.basename());
}

#[test]
fn entry_identifier_comes_from_the_path() {
    let entry = Entry::new(String::from("/tmp/demo/a"), false);
    assert_eq!(40, entry.hash().len());
    assert!(entry
        .hash()
        .chars()
        .all(|c| c.is_ascii_hexdigit() && !c.is_ascii_uppercase()));
    assert_eq!(entry.hash(), Entry::new(String::from("/tmp/demo/a"), true).hash());
    assert_ne!(entry.hash(), Entry::new(String::from("/tmp/demo/b"), false).hash());
    assert_eq!(&entry.hash()[0..8], entry.hash_short(8));
}
