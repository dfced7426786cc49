//! Directory entries and the snapshot index.
//!
//! An entry records one filesystem object seen during enumeration:
//! its path, whether it is a directory, and a content-derived
//! identifier (the hex digest of the path).  The snapshot index maps
//! full identifiers to entries, backed by a character trie of an
//! outside crate, and resolves identifier prefixes to zero, one or
//! many entries.

use crate::util::{chars_to_string, is_hex_char, sha1, sha1_hex_of, str_to_chars};
use vstd::prelude::*;

verus! {

/// One filesystem object observed at snapshot time.
#[derive(Debug, PartialEq, Eq)]
pub struct Entry {
    path: String,
    is_dir: bool,
    hash: String,
}

impl Clone for Entry {
    fn clone(&self) -> (r: Self)
        ensures
            r == *self,
    {
        Entry { path: self.path.clone(), is_dir: self.is_dir, hash: self.hash.clone() }
    }
}

/// Mathematical image of an `Entry`.
pub struct EntryView {
    pub path: Seq<char>,
    pub is_dir: bool,
    pub hash: Seq<char>,
}

impl View for Entry {
    type V = EntryView;

    closed spec fn view(&self) -> EntryView {
        EntryView { path: self.path@, is_dir: self.is_dir, hash: self.hash@ }
    }
}

/// Index after the last `/` of `p` before `i`; 0 when none.
pub open spec fn name_start(p: Seq<char>, i: int) -> int
    decreases i,
        when 0 <= i <= p.len()
{
    if i > 0 && p[i - 1] != '/' {
        name_start(p, i - 1)
    } else {
        i
    }
}

/// The basename of an entry: the path after its last `/`, with a `/`
/// appended for directories.
pub open spec fn basename_spec(e: EntryView) -> Seq<char> {
    let name = e.path.skip(name_start(e.path, e.path.len() as int));
    if e.is_dir {
        name.push('/')
    } else {
        name
    }
}

/// Hidden entries are those whose basename starts with a dot.
pub open spec fn is_hidden_spec(e: EntryView) -> bool {
    basename_spec(e).len() > 0 && basename_spec(e)[0] == '.'
}

impl Entry {
    /// An entry for `path`, with its identifier computed as the hex
    /// digest of the path string.
    pub fn new(path: String, is_dir: bool) -> (r: Self)
        ensures
            r@.path == path@,
            r@.is_dir == is_dir,
            r@.hash == sha1_hex_of(path@),
            r@.hash.len() == 40,
            forall|i: int| 0 <= i < r@.hash.len() ==> is_hex_char(#[trigger] r@.hash[i]),
    {
        let hash = sha1(path.as_str());
        Entry::with_hash(hash, path, is_dir)
    }

    /// An entry with an explicitly given identifier.
    pub fn with_hash(hash: String, path: String, is_dir: bool) -> (r: Self)
        ensures
            r@.path == path@,
            r@.is_dir == is_dir,
            r@.hash == hash@,
    {
        Entry { path, is_dir, hash }
    }

    /// The full identifier.
    pub fn hash(&self) -> (r: &str)
        ensures
            r@ == self@.hash,
    {
        self.hash.as_str()
    }

    /// The first `width` characters of the identifier.
    pub fn hash_short(&self, width: usize) -> (r: &str)
        requires
            width <= self@.hash.len(),
        ensures
            r@ == self@.hash.subrange(0, width as int),
    {
        self.hash.as_str().substring_char(0, width)
    }

    /// The basename: the path after its last `/`, with a `/` appended
    /// for directories.
    pub fn basename(&self) -> (r: String)
        ensures
            r@ == basename_spec(self@),
    {
        let chars = str_to_chars(self.path.as_str());
        let n = chars.len();
        let mut start: usize = n;
        while start > 0 && chars[start - 1] != '/'
            invariant
                chars@ == self@.path,
                n == self@.path.len(),
                0 <= start <= n,
                name_start(self@.path, n as int) == name_start(self@.path, start as int),
            decreases start,
        {
            start = start - 1;
        }
        proof {
            assert(name_start(self@.path, start as int) == start);
        }
        let mut name: Vec<char> = Vec::new();
        let mut i: usize = start;
        while i < n
            invariant
                chars@ == self@.path,
                n == self@.path.len(),
                start <= i <= n,
                name@ == self@.path.subrange(start as int, i as int),
            decreases n - i,
        {
            name.push(chars[i]);
            proof {
                assert(self@.path.subrange(start as int, i + 1) =~= self@.path.subrange(
                    start as int, i as int).push(self@.path[i as int]));
            }
            i = i + 1;
        }
        if self.is_dir {
            name.push('/');
        }
        proof {
            assert(self@.path.subrange(start as int, n as int) =~= self@.path.skip(start as int));
            assert(name@ =~= basename_spec(self@));
        }
        chars_to_string(&name)
    }

    /// Whether the basename starts with a dot.
    pub fn is_hidden(&self) -> (r: bool)
        ensures
            r == is_hidden_spec(self@),
    {
        let name = self.basename();
        if name.as_str().unicode_len() > 0 {
            name.as_str().get_char(0) == '.'
        } else {
            false
        }
    }

    /// The path.
    pub fn path(&self) -> (r: &str)
        ensures
            r@ == self@.path,
    {
        self.path.as_str()
    }

    /// Whether the entry was a directory at snapshot time.
    pub fn is_dir(&self) -> (r: bool)
        ensures
            r == self@.is_dir,
    {
        self.is_dir
    }
}

/// Lexicographic order on character sequences.
pub open spec fn lex_le(a: Seq<char>, b: Seq<char>) -> bool
    decreases a.len(),
{
    if a.len() == 0 {
        true
    } else if b.len() == 0 {
        false
    } else if a[0] != b[0] {
        a[0] < b[0]
    } else {
        lex_le(a.skip(1), b.skip(1))
    }
}

pub proof fn lemma_lex_le_total(a: Seq<char>, b: Seq<char>)
    ensures
        lex_le(a, b) || lex_le(b, a),
    decreases a.len(),
{
    if a.len() > 0 && b.len() > 0 && a[0] == b[0] {
        lemma_lex_le_total(a.skip(1), b.skip(1));
    }
}

pub proof fn lemma_lex_le_trans(a: Seq<char>, b: Seq<char>, c: Seq<char>)
    requires
        lex_le(a, b),
        lex_le(b, c),
    ensures
        lex_le(a, c),
    decreases a.len(),
{
    if a.len() > 0 && b.len() > 0 && c.len() > 0 && a[0] == b[0] && b[0] == c[0] {
        lemma_lex_le_trans(a.skip(1), b.skip(1), c.skip(1));
    }
}

/// The presentation order of the rendered listing: hidden entries
/// sort after visible ones, directories after files, and remaining
/// ties break by path.
pub open spec fn entry_le(a: EntryView, b: EntryView) -> bool {
    if is_hidden_spec(a) != is_hidden_spec(b) {
        !is_hidden_spec(a)
    } else if a.is_dir != b.is_dir {
        !a.is_dir
    } else {
        lex_le(a.path, b.path)
    }
}

pub proof fn lemma_entry_le_total(a: EntryView, b: EntryView)
    ensures
        entry_le(a, b) || entry_le(b, a),
{
    lemma_lex_le_total(a.path, b.path);
}

pub proof fn lemma_entry_le_trans(a: EntryView, b: EntryView, c: EntryView)
    requires
        entry_le(a, b),
        entry_le(b, c),
    ensures
        entry_le(a, c),
{
    if is_hidden_spec(a) == is_hidden_spec(b) && is_hidden_spec(b) == is_hidden_spec(c)
        && a.is_dir == b.is_dir && b.is_dir == c.is_dir {
        lemma_lex_le_trans(a.path, b.path, c.path);
    }
}

/// Whether `a` sorts at or before `b` in the rendered listing.
fn entry_le_exec(a: &Entry, b: &Entry) -> (r: bool)
    ensures
        r == entry_le(a@, b@),
{
    let a_hidden = a.is_hidden();
    let b_hidden = b.is_hidden();
    if a_hidden != b_hidden {
        !a_hidden
    } else if a.is_dir() != b.is_dir() {
        !a.is_dir()
    } else {
        path_le(a.path(), b.path())
    }
}

/// Whether `a` is lexicographically at or before `b`.
fn path_le(a: &str, b: &str) -> (r: bool)
    ensures
        r == lex_le(a@, b@),
{
    let na = a.unicode_len();
    let nb = b.unicode_len();
    let mut i: usize = 0;
    proof {
        assert(a@.skip(0) =~= a@);
        assert(b@.skip(0) =~= b@);
    }
    while i < na && i < nb
        invariant
            na == a@.len(),
            nb == b@.len(),
            i <= na,
            i <= nb,
            lex_le(a@, b@) == lex_le(a@.skip(i as int), b@.skip(i as int)),
        decreases na - i,
    {
        let ca = a.get_char(i);
        let cb = b.get_char(i);
        proof {
            assert(a@.skip(i as int)[0] == a@[i as int]);
            assert(b@.skip(i as int)[0] == b@[i as int]);
        }
        if ca != cb {
            return ca < cb;
        }
        proof {
            assert(a@.skip(i as int).skip(1) =~= a@.skip(i + 1));
            assert(b@.skip(i as int).skip(1) =~= b@.skip(i + 1));
        }
        i = i + 1;
    }
    proof {
        if i >= na {
            assert(a@.skip(i as int) =~= Seq::<char>::empty());
        } else {
            assert(b@.skip(i as int) =~= Seq::<char>::empty());
            assert(a@.skip(i as int).len() > 0);
        }
    }
    na <= nb
}

/// Sorts entries into the presentation order of the listing, keeping
/// exactly the same entries.
pub fn sort_entries(entries: &mut Vec<Entry>)
    ensures
        final(entries)@.to_multiset() == old(entries)@.to_multiset(),
        final(entries)@.len() == old(entries)@.len(),
        forall|i: int, j: int|
            0 <= i < j < final(entries)@.len() ==> entry_le(
                (#[trigger] final(entries)@[i])@,
                (#[trigger] final(entries)@[j])@,
            ),
{
    broadcast use vstd::seq_lib::group_to_multiset_ensures;

    let ghost orig = entries@;
    let mut sorted: Vec<Entry> = Vec::new();
    proof {
        assert(entries@.to_multiset().add(sorted@.to_multiset()) =~= orig.to_multiset());
    }
    while entries.len() > 0
        invariant
            entries@.to_multiset().add(sorted@.to_multiset()) == orig.to_multiset(),
            entries@.len() + sorted@.len() == orig.len(),
            forall|i: int, j: int|
                0 <= i < j < sorted@.len() ==> entry_le(
                    (#[trigger] sorted@[i])@,
                    (#[trigger] sorted@[j])@,
                ),
        decreases entries@.len(),
    {
        let ghost before = entries@;
        let e = entries.pop().unwrap();
        proof {
            assert(before =~= entries@.push(e));
            vstd::seq_lib::to_multiset_build::<Entry>(entries@, e);
            assert(before.to_multiset() =~= entries@.to_multiset().insert(e));
        }
        let mut k: usize = 0;
        while k < sorted.len() && entry_le_exec(&sorted[k], &e)
            invariant
                k <= sorted@.len(),
                forall|i: int| 0 <= i < k ==> entry_le((#[trigger] sorted@[i])@, e@),
            decreases sorted@.len() - k,
        {
            k = k + 1;
        }
        proof {
            if k < sorted@.len() {
                lemma_entry_le_total(sorted@[k as int]@, e@);
                assert forall|j: int| k <= j < sorted@.len() implies entry_le(
                    e@,
                    (#[trigger] sorted@[j])@,
                ) by {
                    if j > k {
                        lemma_entry_le_trans(e@, sorted@[k as int]@, sorted@[j]@);
                    }
                }
            }
        }
        let ghost sorted_before = sorted@;
        sorted.insert(k, e);
        proof {
            vstd::seq_lib::to_multiset_insert::<Entry>(sorted_before, k as int, e);
            assert(sorted@.to_multiset() =~= sorted_before.to_multiset().insert(e));
            assert(entries@.to_multiset().add(sorted@.to_multiset()) =~= orig.to_multiset());
        }
    }
    proof {
        assert(entries@.to_multiset().add(sorted@.to_multiset()) =~= sorted@.to_multiset());
    }
    *entries = sorted;
}

/// A failure to resolve an identifier fragment against the index.
#[derive(Debug, PartialEq, Eq)]
pub enum Error {
    /// No entry's identifier starts with the fragment.
    Absent(String),
    /// Several entries' identifiers start with the fragment; their
    /// full identifiers are listed.
    Ambiguous(String, Vec<String>),
}

/// The trie backing the index: entries keyed by the characters of
/// their identifiers.  The trie type itself comes from an outside
/// crate, so the struct is opaque to the verifier; everything known
/// about it is said through `trie_entries` and the functions below.
#[verifier::external_body]
pub struct CharTrie {
    inner: sequence_trie::SequenceTrie<char, Entry>,
}

/// What the index trie holds: the map from full identifiers to the
/// entries stored under them.
pub uninterp spec fn trie_entries(t: CharTrie) -> Map<Seq<char>, Entry>;

/// Relies on SequenceTrie::new: a new trie holds no values.
#[verifier::external_body]
fn trie_new() -> (t: CharTrie)
    ensures
        trie_entries(t).dom() == Set::<Seq<char>>::empty(),
{
    CharTrie { inner: sequence_trie::SequenceTrie::new() }
}

/// Relies on SequenceTrie::insert: stores `value` under `key`,
/// creating intermediate nodes, and returns the value previously
/// stored under exactly `key`, if any.
#[verifier::external_body]
fn trie_insert(t: &mut CharTrie, key: &Vec<char>, value: Entry) -> (r: Option<Entry>)
    ensures
        trie_entries(*final(t)) == trie_entries(*old(t)).insert(key@, value),
        match r {
            Some(v) => trie_entries(*old(t)).dom().contains(key@) && v == trie_entries(
                *old(t),
            )[key@],
            None => !trie_entries(*old(t)).dom().contains(key@),
        },
{
    t.inner.insert(key, value)
}

/// The keys of `m` that start with `p`.
pub open spec fn prefix_keys(m: Map<Seq<char>, Entry>, p: Seq<char>) -> Set<Seq<char>> {
    m.dom().filter(|k: Seq<char>| p.is_prefix_of(k))
}

/// Finitely many keys match any prefix of a finite map.
pub proof fn lemma_prefix_keys_finite(m: Map<Seq<char>, Entry>, p: Seq<char>)
    requires
        m.dom().finite(),
    ensures
        prefix_keys(m, p).finite(),
        prefix_keys(m, p).len() <= m.dom().len(),
{
    assert(prefix_keys(m, p).subset_of(m.dom()));
    vstd::set_lib::lemma_len_subset(prefix_keys(m, p), m.dom());
}

/// Relies on SequenceTrie::get_node and SequenceTrie::values:
/// `get_node` walks down the characters of `key`, and `values`
/// yields the value of every node in that subtree, that is one value
/// for each stored key extending `key`, in an order the underlying
/// hash map leaves open.  The values are cloned.
#[verifier::external_body]
fn trie_prefix_values(t: &CharTrie, key: &Vec<char>) -> (r: Vec<Entry>)
    ensures
        forall|k: Seq<char>|
            #[trigger] trie_entries(*t).dom().contains(k) && key@.is_prefix_of(k) ==> r@.contains(
                trie_entries(*t)[k],
            ),
        forall|i: int|
            0 <= i < r@.len() ==> exists|k: Seq<char>|
                trie_entries(*t).dom().contains(k) && key@.is_prefix_of(k) && #[trigger] r@[i]
                    == trie_entries(*t)[k],
        r@.len() == prefix_keys(trie_entries(*t), key@).len(),
{
    match t.inner.get_node(key) {
        None => Vec::new(),
        Some(node) => node.values().cloned().collect(),
    }
}

/// The snapshot index: entries keyed by the characters of their full
/// identifiers, with prefix lookup.
pub struct EntryMap {
    trie: CharTrie,
}

impl View for EntryMap {
    type V = Map<Seq<char>, Entry>;

    closed spec fn view(&self) -> Map<Seq<char>, Entry> {
        trie_entries(self.trie)
    }
}

/// The map built by inserting `entries` in order, each under its own
/// identifier; a later entry with the same identifier wins.
pub open spec fn map_of_entries(entries: Seq<Entry>) -> Map<Seq<char>, Entry>
    decreases entries.len(),
{
    if entries.len() == 0 {
        Map::empty()
    } else {
        map_of_entries(entries.drop_last()).insert(entries.last()@.hash, entries.last())
    }
}

impl EntryMap {
    /// The index is well formed: finitely many entries, each stored
    /// under its own identifier.
    pub closed spec fn wf(&self) -> bool {
        &&& self@.dom().finite()
        &&& forall|k: Seq<char>| #[trigger] self@.dom().contains(k) ==> self@[k]@.hash == k
    }

    /// A well-formed index has finitely many entries.
    pub proof fn lemma_wf_finite(&self)
        requires
            self.wf(),
        ensures
            self@.dom().finite(),
            forall|k: Seq<char>| #[trigger] self@.dom().contains(k) ==> self@[k]@.hash == k,
    {
    }

    /// An empty index.
    pub fn new() -> (r: Self)
        ensures
            r.wf(),
            r@ == Map::<Seq<char>, Entry>::empty(),
    {
        EntryMap { trie: trie_new() }
    }

    /// The index holding `vec`'s entries, inserted in order.
    pub fn from_vec(vec: Vec<Entry>) -> (r: Self)
        ensures
            r.wf(),
            r@ == map_of_entries(vec@),
    {
        let mut map = Self::new();
        proof {
            assert(map_of_entries(vec@.take(0)) =~= map@);
        }
        let mut i: usize = 0;
        while i < vec.len()
            invariant
                map.wf(),
                i <= vec@.len(),
                map@ == map_of_entries(vec@.take(i as int)),
            decreases vec@.len() - i,
        {
            let entry = vec[i].clone();
            proof {
                assert(vec@.take(i + 1).drop_last() =~= vec@.take(i as int));
                assert(vec@.take(i + 1).last() == vec@[i as int]);
            }
            map.insert(entry);
            i = i + 1;
        }
        proof {
            assert(vec@.take(vec@.len() as int) =~= vec@);
        }
        map
    }

    /// Stores `entry` under its identifier, returning whether the
    /// identifier was new to the index.
    pub fn insert(&mut self, entry: Entry) -> (r: bool)
        requires
            old(self).wf(),
        ensures
            final(self).wf(),
            final(self)@ == old(self)@.insert(entry@.hash, entry),
            r == !old(self)@.dom().contains(entry@.hash),
    {
        let hash_chars = str_to_chars(entry.hash());
        let prev = trie_insert(&mut self.trie, &hash_chars, entry);
        prev.is_none()
    }

    /// Every entry whose full identifier starts with `hash`; the
    /// empty fragment returns all entries.  The order is left open by
    /// the trie's underlying hash map.
    pub fn get_all(&self, hash: &str) -> (r: Vec<Entry>)
        requires
            self.wf(),
        ensures
            forall|k: Seq<char>|
                #[trigger] self@.dom().contains(k) && hash@.is_prefix_of(k) ==> r@.contains(
                    self@[k],
                ),
            forall|i: int|
                0 <= i < r@.len() ==> self@.dom().contains(#[trigger] r@[i]@.hash)
                    && hash@.is_prefix_of(r@[i]@.hash) && r@[i] == self@[r@[i]@.hash],
            r@.len() == prefix_keys(self@, hash@).len(),
    {
        let hash_chars = str_to_chars(hash);
        let r = trie_prefix_values(&self.trie, &hash_chars);
        proof {
            assert forall|i: int| 0 <= i < r@.len() implies self@.dom().contains(
                #[trigger] r@[i]@.hash,
            ) && hash@.is_prefix_of(r@[i]@.hash) && r@[i] == self@[r@[i]@.hash] by {
                let k = choose|k: Seq<char>|
                    self@.dom().contains(k) && hash@.is_prefix_of(k) && r@[i] == self@[k];
                assert(self@[k]@.hash == k);
            }
        }
        r
    }

    /// Resolves an identifier fragment: the unique entry whose
    /// identifier starts with it, an `Absent` error when there is
    /// none, or an `Ambiguous` error listing every matching full
    /// identifier when there are several.
    pub fn get(&self, hash: &str) -> (r: Result<Entry, Error>)
        requires
            self.wf(),
        ensures
            match r {
                Ok(e) => {
                    &&& prefix_keys(self@, hash@).len() == 1
                    &&& self@.dom().contains(e@.hash)
                    &&& hash@.is_prefix_of(e@.hash)
                    &&& e == self@[e@.hash]
                },
                Err(Error::Absent(h)) => {
                    &&& h@ == hash@
                    &&& prefix_keys(self@, hash@).len() == 0
                },
                Err(Error::Ambiguous(h, ms)) => {
                    &&& h@ == hash@
                    &&& prefix_keys(self@, hash@).len() >= 2
                    &&& ms@.len() == prefix_keys(self@, hash@).len()
                    &&& forall|i: int|
                        0 <= i < ms@.len() ==> prefix_keys(self@, hash@).contains(
                            #[trigger] ms@[i]@,
                        )
                    &&& forall|k: Seq<char>|
                        #[trigger] prefix_keys(self@, hash@).contains(k) ==> exists|i: int|
                            0 <= i < ms@.len() && ms@[i]@ == k
                },
            },
    {
        let mut entries = self.get_all(hash);
        if entries.len() == 0 {
            Err(Error::Absent(hash.to_owned()))
        } else if entries.len() == 1 {
            let e = entries.pop().unwrap();
            Ok(e)
        } else {
            let mut matches: Vec<String> = Vec::new();
            let mut i: usize = 0;
            while i < entries.len()
                invariant
                    self.wf(),
                    i <= entries@.len(),
                    matches@.len() == i,
                    forall|j: int|
                        0 <= j < entries@.len() ==> self@.dom().contains(
                            #[trigger] entries@[j]@.hash,
                        ) && hash@.is_prefix_of(entries@[j]@.hash) && entries@[j]
                            == self@[entries@[j]@.hash],
                    forall|j: int| 0 <= j < i ==> #[trigger] matches@[j]@ == entries@[j]@.hash,
                decreases entries@.len() - i,
            {
                matches.push(entries[i].hash().to_owned());
                i = i + 1;
            }
            proof {
                assert forall|k: Seq<char>| #[trigger] prefix_keys(self@, hash@).contains(k)
                    implies exists|i: int| 0 <= i < matches@.len() && matches@[i]@ == k by {
                    assert(self@.dom().contains(k) && hash@.is_prefix_of(k));
                    assert(entries@.contains(self@[k]));
                    let j = choose|j: int|
                        0 <= j < entries@.len() && entries@[j] == self@[k];
                    assert(matches@[j]@ == entries@[j]@.hash);
                    assert(entries@[j]@.hash == k);
                }
            }
            Err(Error::Ambiguous(hash.to_owned(), matches))
        }
    }
}

} // verus!
