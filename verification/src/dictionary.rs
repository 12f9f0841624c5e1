//! The folder dictionary: normalised keys mapped to folder names, and the
//! rules that derive keys from a folder name.
use vstd::prelude::*;
use crate::normalize::{normalize, normalized};
use crate::order::{sort_strings, strictly_sorted};
use crate::types::DictionaryGroup;
use crate::text::{
    chars_of, contains_str, copy_str, find_char_from, first_from, is_whitespace_char,
    lemma_first_from_at, lemma_first_from_bounds, slice_chars, str_equal, string_of, trim,
    trim_chars, trim_end, trim_start, views,
};

verus! {

/// A pair of a normalised key and the folder it leads to.
pub type EntryView = (Seq<char>, Seq<char>);

/// No key occurs twice.
pub open spec fn keys_distinct(s: Seq<EntryView>) -> bool {
    forall|i: int, j: int| 0 <= i < j < s.len() ==> s[i].0 != s[j].0
}

/// The folder that `k` leads to in `s`, if any.
pub open spec fn lookup(s: Seq<EntryView>, k: Seq<char>) -> Option<Seq<char>>
    decreases s.len(),
{
    if s.len() == 0 {
        None
    } else if s[0].0 == k {
        Some(s[0].1)
    } else {
        lookup(s.drop_first(), k)
    }
}

/// The position of `k` in `s`, if any.
pub open spec fn index_of_key(s: Seq<EntryView>, k: Seq<char>) -> Option<int>
    decreases s.len(),
{
    if s.len() == 0 {
        None
    } else if s[0].0 == k {
        Some(0)
    } else {
        match index_of_key(s.drop_first(), k) {
            Some(i) => Some(i + 1),
            None => None,
        }
    }
}

/// `index_of_key` finds the first entry with the key, and `lookup` gives its
/// folder; when it finds none, no entry has the key.
pub proof fn lemma_index_of_key(s: Seq<EntryView>, k: Seq<char>)
    ensures
        index_of_key(s, k) matches Some(i) ==> 0 <= i < s.len() && s[i].0 == k
            && lookup(s, k) == Some(s[i].1)
            && forall|j: int| 0 <= j < i ==> s[j].0 != k,
        index_of_key(s, k) is None ==> lookup(s, k) is None
            && forall|j: int| 0 <= j < s.len() ==> s[j].0 != k,
    decreases s.len(),
{
    if s.len() > 0 && s[0].0 != k {
        lemma_index_of_key(s.drop_first(), k);
        assert forall|j: int| 1 <= j < s.len() implies s[j] == s.drop_first()[j - 1] by {}
    }
}

/// With distinct keys, the folder of the key at position `i` is the folder at `i`.
pub proof fn lemma_lookup_at(s: Seq<EntryView>, i: int)
    requires
        keys_distinct(s),
        0 <= i < s.len(),
    ensures
        lookup(s, s[i].0) == Some(s[i].1),
        index_of_key(s, s[i].0) == Some(i),
{
    lemma_index_of_key(s, s[i].0);
}

/// Two entry sequences with the same keys in the same positions, and the
/// same folder wherever the key is `k`, lead `k` to the same folder.
pub proof fn lemma_lookup_same(s: Seq<EntryView>, t: Seq<EntryView>, k: Seq<char>)
    requires
        s.len() == t.len(),
        forall|j: int| 0 <= j < s.len() ==> s[j].0 == t[j].0,
        forall|j: int| 0 <= j < s.len() && s[j].0 == k ==> s[j].1 == t[j].1,
    ensures
        lookup(s, k) == lookup(t, k),
    decreases s.len(),
{
    if s.len() > 0 && s[0].0 != k {
        lemma_lookup_same(s.drop_first(), t.drop_first(), k);
    }
}

/// Appending an entry for another key does not change where `k` leads.
pub proof fn lemma_lookup_push(s: Seq<EntryView>, e: EntryView, k: Seq<char>)
    requires
        e.0 != k,
    ensures
        lookup(s.push(e), k) == lookup(s, k),
    decreases s.len(),
{
    if s.len() > 0 && s[0].0 != k {
        assert(s.push(e).drop_first() == s.drop_first().push(e));
        lemma_lookup_push(s.drop_first(), e, k);
    } else if s.len() == 0 {
        assert(s.push(e).drop_first() =~= Seq::<EntryView>::empty());
        assert(lookup(s.push(e).drop_first(), k) is None);
    } else {
        assert(s.push(e)[0] == s[0]);
    }
}

/// The entries after making `k` lead to `v`: an existing key keeps its
/// position and gets the new folder, a new key is appended.
pub open spec fn inserted(s: Seq<EntryView>, k: Seq<char>, v: Seq<char>) -> Seq<EntryView> {
    match index_of_key(s, k) {
        Some(i) => s.update(i, (k, v)),
        None => s.push((k, v)),
    }
}

/// `opt` as an optional sequence of characters.
pub open spec fn opt_view(opt: Option<String>) -> Option<Seq<char>> {
    match opt {
        Some(s) => Some(s@),
        None => None,
    }
}

/// The entries after inserting each pair of `pairs` in turn.
pub open spec fn inserted_all(s: Seq<EntryView>, pairs: Seq<EntryView>) -> Seq<EntryView>
    decreases pairs.len(),
{
    if pairs.len() == 0 {
        s
    } else {
        let r = inserted_all(s, pairs.drop_last());
        inserted(r, pairs.last().0, pairs.last().1)
    }
}

/// The entries without `k`.
pub open spec fn removed(s: Seq<EntryView>, k: Seq<char>) -> Seq<EntryView> {
    match index_of_key(s, k) {
        Some(i) => s.remove(i),
        None => s,
    }
}

/// The entries whose folder is not `f`, in order.
pub open spec fn without_folder(s: Seq<EntryView>, f: Seq<char>) -> Seq<EntryView>
    decreases s.len(),
{
    if s.len() == 0 {
        s
    } else if s.last().1 == f {
        without_folder(s.drop_last(), f)
    } else {
        without_folder(s.drop_last(), f).push(s.last())
    }
}

/// The entries with folder `from` renamed to `to`.
pub open spec fn renamed(s: Seq<EntryView>, from: Seq<char>, to: Seq<char>) -> Seq<EntryView> {
    s.map_values(|e: EntryView| if e.1 == from { (e.0, to) } else { e })
}

/// The folders of the entries, in order.
pub open spec fn folder_values(s: Seq<EntryView>) -> Seq<Seq<char>> {
    s.map_values(|e: EntryView| e.1)
}

/// Inserting makes `k` lead to `v` and leaves every other key as it was.
pub proof fn lemma_inserted(s: Seq<EntryView>, k: Seq<char>, v: Seq<char>)
    requires
        keys_distinct(s),
    ensures
        keys_distinct(inserted(s, k, v)),
        lookup(inserted(s, k, v), k) == Some(v),
        forall|k2: Seq<char>| k2 != k ==> lookup(#[trigger] inserted(s, k, v), k2) == lookup(s, k2),
{
    lemma_index_of_key(s, k);
    let t = inserted(s, k, v);
    match index_of_key(s, k) {
        Some(i) => {
            assert forall|a: int, b: int| 0 <= a < b < t.len() implies t[a].0 != t[b].0 by {
                assert(t[a].0 == s[a].0);
                assert(t[b].0 == s[b].0);
            }
            lemma_lookup_at(t, i);
            assert forall|k2: Seq<char>| k2 != k implies lookup(#[trigger] inserted(s, k, v), k2) == lookup(s, k2) by {
                lemma_lookup_same(t, s, k2);
            }
        },
        None => {
            assert forall|a: int, b: int| 0 <= a < b < t.len() implies t[a].0 != t[b].0 by {
                if b == s.len() {
                    assert(s[a].0 != k);
                }
            }
            lemma_lookup_at(t, s.len() as int);
            assert forall|k2: Seq<char>| k2 != k implies lookup(#[trigger] inserted(s, k, v), k2) == lookup(s, k2) by {
                lemma_lookup_push(s, (k, v), k2);
            }
        },
    }
}

/// Inserting pairs that all lead to `t`: every key of the pairs then leads
/// to `t`, a key that led to `t` still does, and a key not among the pairs
/// is unchanged.
pub proof fn lemma_inserted_all_to(s: Seq<EntryView>, pairs: Seq<EntryView>, t: Seq<char>)
    requires
        keys_distinct(s),
        forall|i: int| 0 <= i < pairs.len() ==> (#[trigger] pairs[i]).1 == t,
    ensures
        keys_distinct(inserted_all(s, pairs)),
        forall|i: int| 0 <= i < pairs.len() ==> lookup(inserted_all(s, pairs), (#[trigger] pairs[i]).0) == Some(t),
        forall|k: Seq<char>| lookup(s, k) == Some(t) ==> lookup(#[trigger] inserted_all(s, pairs), k) == Some(t),
        forall|k: Seq<char>| (forall|i: int| 0 <= i < pairs.len() ==> (#[trigger] pairs[i]).0 != k) ==> lookup(
            #[trigger] inserted_all(s, pairs),
            k,
        ) == lookup(s, k),
    decreases pairs.len(),
{
    if pairs.len() > 0 {
        let front = pairs.drop_last();
        assert forall|i: int| 0 <= i < front.len() implies (#[trigger] front[i]).1 == t by {
            assert(front[i] == pairs[i]);
        }
        lemma_inserted_all_to(s, front, t);
        let r = inserted_all(s, front);
        lemma_inserted(r, pairs.last().0, pairs.last().1);
        assert forall|i: int| 0 <= i < pairs.len() implies lookup(inserted_all(s, pairs), (#[trigger] pairs[i]).0) == Some(t) by {
            if i < pairs.len() - 1 {
                assert(front[i] == pairs[i]);
            }
        }
        assert forall|k: Seq<char>| (forall|i: int| 0 <= i < pairs.len() ==> (#[trigger] pairs[i]).0 != k) implies lookup(
            #[trigger] inserted_all(s, pairs),
            k,
        ) == lookup(s, k) by {
            assert(pairs[pairs.len() - 1].0 != k);
            assert forall|i: int| 0 <= i < front.len() implies (#[trigger] front[i]).0 != k by {
                assert(front[i] == pairs[i]);
            }
        }
    }
}

/// Renaming a folder: a key that led to `from` leads to `to`, any other key
/// is unchanged.
pub proof fn lemma_renamed(s: Seq<EntryView>, from: Seq<char>, to: Seq<char>, k: Seq<char>)
    requires
        keys_distinct(s),
    ensures
        keys_distinct(renamed(s, from, to)),
        lookup(s, k) == Some(from) ==> lookup(renamed(s, from, to), k) == Some(to),
        lookup(s, k) != Some(from) ==> lookup(renamed(s, from, to), k) == lookup(s, k),
{
    let t = renamed(s, from, to);
    assert forall|a: int, b: int| 0 <= a < b < t.len() implies t[a].0 != t[b].0 by {
        assert(t[a].0 == s[a].0);
        assert(t[b].0 == s[b].0);
    }
    lemma_index_of_key(s, k);
    lemma_index_of_key(t, k);
    match index_of_key(s, k) {
        Some(i) => {
            lemma_lookup_at(t, i);
        },
        None => {
            if let Some(j) = index_of_key(t, k) {
                assert(t[j].0 == s[j].0);
            }
        },
    }
}

/// Every key a folder name contributes leads to that folder name.
pub proof fn lemma_keys_for_folder_lead_to_it(folder: Seq<char>)
    ensures
        forall|i: int| 0 <= i < keys_for_folder(folder).len() ==> (#[trigger] keys_for_folder(folder)[i]).1 == folder,
{
    match main_sub_of(folder) {
        Some((m, subs)) => {
            lemma_sub_keys_lead_to(subs, folder);
        },
        None => {},
    }
}

/// Every key derived from the parts of a folder name leads to that folder.
proof fn lemma_sub_keys_lead_to(subs: Seq<Seq<char>>, folder: Seq<char>)
    ensures
        forall|i: int| 0 <= i < sub_keys(subs, folder).len() ==> (#[trigger] sub_keys(subs, folder)[i]).1 == folder,
    decreases subs.len(),
{
    if subs.len() > 0 {
        lemma_sub_keys_lead_to(subs.drop_last(), folder);
        let r = sub_keys(subs.drop_last(), folder);
        assert forall|i: int| 0 <= i < sub_keys(subs, folder).len() implies (#[trigger] sub_keys(subs, folder)[i]).1 == folder by {
            if i < r.len() {
                assert(sub_keys(subs, folder)[i] == r[i]);
            }
        }
    }
}

/// A dictionary: normalised keys, each leading to one folder name, in the
/// order in which they were first inserted.
#[derive(Clone)]
pub struct Dictionary {
    keys: Vec<String>,
    folders: Vec<String>,
}

impl View for Dictionary {
    type V = Seq<EntryView>;

    closed spec fn view(&self) -> Seq<EntryView> {
        Seq::new(self.keys@.len(), |i: int| (self.keys@[i]@, self.folders@[i]@))
    }
}

impl Dictionary {
    /// Its parts agree in length and no key occurs twice.
    pub closed spec fn wf(&self) -> bool {
        &&& self.keys@.len() == self.folders@.len()
        &&& keys_distinct(self@)
    }

    /// A well-formed dictionary has distinct keys.
    pub proof fn lemma_keys_distinct(&self)
        requires
            self.wf(),
        ensures
            keys_distinct(self@),
    {
    }

    /// An empty dictionary.
    pub fn new() -> (d: Self)
        ensures
            d.wf(),
            d@ == Seq::<EntryView>::empty(),
    {
        let d = Dictionary { keys: Vec::new(), folders: Vec::new() };
        assert(d@ =~= Seq::<EntryView>::empty());
        d
    }

    /// The number of keys.
    pub fn len(&self) -> (n: usize)
        requires
            self.wf(),
        ensures
            n == self@.len(),
    {
        self.keys.len()
    }

    /// Whether it holds no key.
    pub fn is_empty(&self) -> (b: bool)
        requires
            self.wf(),
        ensures
            b == (self@.len() == 0),
    {
        self.keys.len() == 0
    }

    /// The key at position `i`.
    pub fn key_at(&self, i: usize) -> (k: &String)
        requires
            self.wf(),
            i < self@.len(),
        ensures
            k@ == self@[i as int].0,
    {
        &self.keys[i]
    }

    /// The folder at position `i`.
    pub fn folder_at(&self, i: usize) -> (f: &String)
        requires
            self.wf(),
            i < self@.len(),
        ensures
            f@ == self@[i as int].1,
    {
        &self.folders[i]
    }

    /// The position of `key`, if it is present.
    pub fn position(&self, key: &str) -> (r: Option<usize>)
        requires
            self.wf(),
        ensures
            r matches Some(i) ==> index_of_key(self@, key@) == Some(i as int),
            r is None ==> index_of_key(self@, key@) is None,
    {
        proof {
            lemma_index_of_key(self@, key@);
        }
        let mut i: usize = 0;
        while i < self.keys.len()
            invariant
                self.wf(),
                i <= self@.len(),
                forall|j: int| 0 <= j < i ==> self@[j].0 != key@,
            decreases self.keys.len() - i,
        {
            if str_equal(self.keys[i].as_str(), key) {
                proof {
                    lemma_lookup_at(self@, i as int);
                }
                return Some(i);
            }
            i = i + 1;
        }
        None
    }

    /// The folder that `key` leads to, if any.
    pub fn get(&self, key: &str) -> (r: Option<&String>)
        requires
            self.wf(),
        ensures
            r matches Some(f) ==> lookup(self@, key@) == Some(f@),
            r is None ==> lookup(self@, key@) is None,
    {
        proof {
            lemma_index_of_key(self@, key@);
        }
        match self.position(key) {
            Some(i) => Some(&self.folders[i]),
            None => None,
        }
    }

    /// Whether `key` is present.
    pub fn contains_key(&self, key: &str) -> (b: bool)
        requires
            self.wf(),
        ensures
            b == (lookup(self@, key@) is Some),
    {
        proof {
            lemma_index_of_key(self@, key@);
        }
        self.position(key).is_some()
    }

    /// Makes `key` lead to `folder`: an existing key keeps its position and
    /// gets the new folder, a new key is added at the end. Returns the
    /// folder the key led to before.
    pub fn insert(&mut self, key: String, folder: String) -> (old_folder: Option<String>)
        requires
            old(self).wf(),
        ensures
            final(self).wf(),
            final(self)@ == inserted(old(self)@, key@, folder@),
            old_folder matches Some(f) ==> lookup(old(self)@, key@) == Some(f@),
            old_folder is None ==> lookup(old(self)@, key@) is None,
            lookup(final(self)@, key@) == Some(folder@),
            forall|k: Seq<char>| k != key@ ==> lookup(#[trigger] final(self)@, k) == lookup(old(self)@, k),
    {
        proof {
            lemma_index_of_key(self@, key@);
        }
        let ghost before = self@;
        match self.position(key.as_str()) {
            Some(i) => {
                let previous = self.folders[i].clone();
                self.keys.set(i, key);
                self.folders.set(i, folder);
                assert(self@ =~= before.update(i as int, (key@, folder@)));
                proof {
                    self.lemma_lookup_after_update(before, i as int);
                }
                Some(previous)
            },
            None => {
                self.keys.push(key);
                self.folders.push(folder);
                assert(self@ =~= before.push((key@, folder@)));
                proof {
                    assert(keys_distinct(self@));
                    lemma_lookup_at(self@, before.len() as int);
                    assert forall|k: Seq<char>| k != key@ implies lookup(self@, k) == lookup(before, k) by {
                        lemma_lookup_push(before, (key@, folder@), k);
                    }
                }
                None
            },
        }
    }

    /// Inserts each pair in turn.
    pub fn insert_all(&mut self, pairs: Vec<(String, String)>)
        requires
            old(self).wf(),
        ensures
            final(self).wf(),
            final(self)@ == inserted_all(old(self)@, pair_views(pairs@)),
    {
        let ghost start = self@;
        let n = pairs.len();
        let mut i: usize = 0;
        while i < n
            invariant
                self.wf(),
                n == pairs.len(),
                i <= n,
                self@ == inserted_all(start, pair_views(pairs@).take(i as int)),
            decreases n - i,
        {
            assert(pair_views(pairs@).take(i + 1).drop_last() == pair_views(pairs@).take(i as int));
            let (k, v) = (pairs[i].0.clone(), pairs[i].1.clone());
            self.insert(k, v);
            i = i + 1;
        }
        assert(pair_views(pairs@).take(n as int) == pair_views(pairs@));
    }

    /// Removes `key`, if present.
    pub fn remove(&mut self, key: &str)
        requires
            old(self).wf(),
        ensures
            final(self).wf(),
            final(self)@ == removed(old(self)@, key@),
            lookup(final(self)@, key@) is None,
            forall|k: Seq<char>| k != key@ ==> lookup(#[trigger] final(self)@, k) == lookup(old(self)@, k),
    {
        let ghost before = self@;
        proof {
            lemma_index_of_key(before, key@);
        }
        match self.position(key) {
            Some(i) => {
                self.keys.remove(i);
                self.folders.remove(i);
                assert(self@ =~= before.remove(i as int));
                proof {
                    assert forall|a: int, b: int| 0 <= a < b < self@.len() implies self@[a].0 != self@[b].0 by {
                        if a >= i {
                            assert(self@[a] == before[a + 1]);
                        } else {
                            assert(self@[a] == before[a]);
                        }
                        if b >= i {
                            assert(self@[b] == before[b + 1]);
                        } else {
                            assert(self@[b] == before[b]);
                        }
                    }
                    lemma_index_of_key(self@, key@);
                    assert forall|k: Seq<char>| k != key@ implies lookup(#[trigger] self@, k) == lookup(before, k) by {
                        lemma_index_of_key(self@, k);
                        lemma_index_of_key(before, k);
                        match index_of_key(before, k) {
                            Some(j) => {
                                if j < i {
                                    assert(self@[j] == before[j]);
                                    lemma_lookup_at(self@, j);
                                } else {
                                    assert(self@[j - 1] == before[j]);
                                    lemma_lookup_at(self@, j - 1);
                                }
                            },
                            None => {
                                if let Some(j) = index_of_key(self@, k) {
                                    if j < i {
                                        assert(self@[j] == before[j]);
                                    } else {
                                        assert(self@[j] == before[j + 1]);
                                    }
                                }
                            },
                        }
                    }
                }
            },
            None => {},
        }
    }

    /// Keeps only the entries whose folder is not `folder`.
    pub fn remove_folder(&mut self, folder: &str)
        requires
            old(self).wf(),
        ensures
            final(self).wf(),
            final(self)@ == without_folder(old(self)@, folder@),
    {
        let ghost before = self@;
        let mut keys: Vec<String> = Vec::new();
        let mut folders: Vec<String> = Vec::new();
        let n = self.keys.len();
        assert(Seq::new(keys@.len(), |j: int| (keys@[j]@, folders@[j]@)) =~= without_folder(before.take(0), folder@));
        let mut i: usize = 0;
        while i < n
            invariant
                i <= n,
                n == self.keys.len(),
                self.wf(),
                self@ == before,
                keys.len() == folders.len(),
                Seq::new(keys@.len(), |j: int| (keys@[j]@, folders@[j]@)) == without_folder(before.take(i as int), folder@),
                forall|j: int| #![trigger keys@[j]] 0 <= j < keys.len() ==> exists|m: int| 0 <= m < i && #[trigger] before[m].0 == keys@[j]@,
                forall|a: int, b: int| 0 <= a < b < keys.len() ==> keys@[a]@ != keys@[b]@,
            decreases n - i,
        {
            let ghost old_keys = keys@;
            let ghost old_folders = folders@;
            assert(before.take(i + 1).drop_last() == before.take(i as int));
            assert(before[i as int] == (self.keys@[i as int]@, self.folders@[i as int]@));
            if !str_equal(self.folders[i].as_str(), folder) {
                proof {
                    assert forall|j: int| 0 <= j < old_keys.len() implies old_keys[j]@ != self.keys@[i as int]@ by {
                        let m = choose|m: int| 0 <= m < i && #[trigger] before[m].0 == old_keys[j]@;
                    }
                }
                keys.push(self.keys[i].clone());
                folders.push(self.folders[i].clone());
                assert(Seq::new(keys@.len(), |j: int| (keys@[j]@, folders@[j]@)) =~= Seq::new(old_keys.len(), |j: int| (old_keys[j]@, old_folders[j]@)).push(before[i as int]));
                assert forall|j: int| #![trigger keys@[j]] 0 <= j < keys.len() implies exists|m: int| 0 <= m < i + 1 && #[trigger] before[m].0 == keys@[j]@ by {
                    if j < old_keys.len() {
                        let m = choose|m: int| 0 <= m < i && #[trigger] before[m].0 == old_keys[j]@;
                        assert(before[m].0 == keys@[j]@);
                    } else {
                        assert(before[i as int].0 == keys@[j]@);
                    }
                }
            }
            i = i + 1;
        }
        assert(before.take(n as int) == before);
        self.keys = keys;
        self.folders = folders;
    }

    /// Renames every occurrence of folder `from` to `to`.
    pub fn rename_folder(&mut self, from: &str, to: &str)
        requires
            old(self).wf(),
        ensures
            final(self).wf(),
            final(self)@ == renamed(old(self)@, from@, to@),
    {
        let ghost before = self@;
        let n = self.folders.len();
        for i in 0..n
            invariant
                n == self.folders.len(),
                self.keys.len() == n,
                before.len() == n,
                keys_distinct(before),
                forall|j: int| 0 <= j < n ==> (#[trigger] self@[j]).0 == before[j].0,
                forall|j: int| 0 <= j < i ==> #[trigger] self@[j] == renamed(before, from@, to@)[j],
                forall|j: int| i <= j < n ==> #[trigger] self@[j] == before[j],
        {
            let ghost prev = self@;
            assert(prev[i as int] == before[i as int]);
            if str_equal(self.folders[i].as_str(), from) {
                self.folders.set(i, copy_str(to));
                assert(self@ =~= prev.update(i as int, (prev[i as int].0, to@)));
            } else {
                assert(self@ =~= prev);
            }
            assert(self@[i as int] == renamed(before, from@, to@)[i as int]);
        }
        assert(self@ =~= renamed(before, from@, to@));
    }

    /// After the folder of the entry at `i` changed, its key leads to the new
    /// folder and every other key leads where it led before.
    proof fn lemma_lookup_after_update(&self, before: Seq<EntryView>, i: int)
        requires
            keys_distinct(before),
            0 <= i < before.len(),
            self@.len() == before.len(),
            self@ == before.update(i, (before[i].0, self@[i].1)),
        ensures
            keys_distinct(self@),
            lookup(self@, before[i].0) == Some(self@[i].1),
            forall|k: Seq<char>| k != before[i].0 ==> lookup(#[trigger] self@, k) == lookup(before, k),
    {
        lemma_lookup_at(self@, i);
        assert forall|k: Seq<char>| k != before[i].0 implies lookup(self@, k) == lookup(before, k) by {
            lemma_lookup_same(self@, before, k);
        }
    }
}

/// `str::split(',')`: the pieces between commas, empty ones included.
pub open spec fn split_commas(s: Seq<char>) -> Seq<Seq<char>>
    decreases s.len(),
{
    if s.len() == 0 {
        seq![Seq::empty()]
    } else {
        let r = split_commas(s.drop_last());
        if s.last() == ',' {
            r.push(Seq::empty())
        } else {
            r.drop_last().push(r.last().push(s.last()))
        }
    }
}

/// The pieces trimmed, the empty ones dropped.
pub open spec fn trimmed_nonempty(ps: Seq<Seq<char>>) -> Seq<Seq<char>>
    decreases ps.len(),
{
    if ps.len() == 0 {
        Seq::empty()
    } else {
        let r = trimmed_nonempty(ps.drop_last());
        let t = trim(ps.last());
        if t.len() > 0 {
            r.push(t)
        } else {
            r
        }
    }
}

/// The `Main(Sub1, Sub2)` reading of a name: the trimmed name must hold a
/// `(` and end with `)`; the main part is what precedes the first `(`,
/// trimmed; the subs are the comma-separated pieces inside, trimmed, empty
/// ones dropped. `None` when the form does not fit or both parts are empty.
pub open spec fn main_sub_of(name: Seq<char>) -> Option<(Seq<char>, Seq<Seq<char>>)> {
    let t = trim(name);
    match first_from(t, 0, '(') {
        None => None,
        Some(p) => if t.len() == 0 || t.last() != ')' {
            None
        } else {
            let main = trim(t.take(p));
            let subs = trimmed_nonempty(split_commas(t.subrange(p + 1, t.len() - 1)));
            if main.len() == 0 && subs.len() == 0 {
                None
            } else {
                Some((main, subs))
            }
        },
    }
}

/// The parts joined with `,` between them.
pub open spec fn join_commas(parts: Seq<Seq<char>>) -> Seq<char>
    decreases parts.len(),
{
    if parts.len() == 0 {
        Seq::empty()
    } else if parts.len() == 1 {
        parts[0]
    } else {
        join_commas(parts.drop_last()) + seq![','] + parts.last()
    }
}

/// Splitting always gives at least one piece.
proof fn lemma_split_commas_nonempty(s: Seq<char>)
    ensures
        split_commas(s).len() >= 1,
    decreases s.len(),
{
    if s.len() > 0 {
        lemma_split_commas_nonempty(s.drop_last());
    }
}

/// Appending text without commas extends the last piece.
proof fn lemma_split_commas_append(x: Seq<char>, y: Seq<char>)
    requires
        forall|i: int| 0 <= i < y.len() ==> #[trigger] y[i] != ',',
    ensures
        split_commas(x + y) == split_commas(x).drop_last().push(split_commas(x).last() + y),
    decreases y.len(),
{
    lemma_split_commas_nonempty(x);
    let sx = split_commas(x);
    if y.len() == 0 {
        assert(x + y == x);
        assert(sx.last() + y == sx.last());
        assert(sx.drop_last().push(sx.last()) == sx);
    } else {
        let y0 = y.drop_last();
        assert forall|i: int| 0 <= i < y0.len() implies #[trigger] y0[i] != ',' by {
            assert(y0[i] == y[i]);
        }
        lemma_split_commas_append(x, y0);
        assert((x + y).drop_last() == x + y0);
        assert((x + y).last() == y.last());
        assert(y[y.len() - 1] != ',');
        assert((sx.last() + y0).push(y.last()) == sx.last() + y);
    }
}

/// Splitting parts joined with commas gives the parts back, when no part
/// holds a comma.
pub proof fn lemma_split_join_commas(parts: Seq<Seq<char>>)
    requires
        parts.len() >= 1,
        forall|k: int, i: int| 0 <= k < parts.len() && 0 <= i < parts[k].len() ==> #[trigger] parts[k][i] != ',',
    ensures
        split_commas(join_commas(parts)) == parts,
    decreases parts.len(),
{
    if parts.len() == 1 {
        lemma_split_commas_append(Seq::empty(), parts[0]);
        assert(Seq::<char>::empty() + parts[0] == parts[0]);
        assert(split_commas(Seq::<char>::empty()) == seq![Seq::<char>::empty()]);
        assert(Seq::<char>::empty() + parts[0] == parts[0]);
    } else {
        let front = parts.drop_last();
        assert forall|k: int, i: int| 0 <= k < front.len() && 0 <= i < front[k].len() implies #[trigger] front[k][i] != ',' by {
            assert(front[k] == parts[k]);
        }
        lemma_split_join_commas(front);
        let j = join_commas(front);
        let jc = j + seq![','];
        assert(jc.drop_last() == j);
        assert(jc.last() == ',');
        assert(split_commas(jc) == front.push(Seq::<char>::empty()));
        let last = parts.last();
        assert forall|i: int| 0 <= i < last.len() implies #[trigger] last[i] != ',' by {
            assert(parts[parts.len() - 1][i] != ',');
        }
        lemma_split_commas_append(jc, last);
        assert(join_commas(parts) == jc + last);
        assert(Seq::<char>::empty() + last == last);
        assert(front.push(Seq::<char>::empty()).drop_last() == front);
        assert(front.push(last) == parts);
    }
}

/// Text without whitespace is its own trimmed form.
pub proof fn lemma_trim_no_whitespace(x: Seq<char>)
    requires
        forall|i: int| 0 <= i < x.len() ==> !is_whitespace_char(#[trigger] x[i]),
    ensures
        trim(x) == x,
{
    assert(trim_start(x) == x);
    assert(trim_end(x) == x);
}

/// Pieces that are non-empty and hold no whitespace pass through unchanged.
proof fn lemma_trimmed_nonempty_clean(ps: Seq<Seq<char>>)
    requires
        forall|k: int| 0 <= k < ps.len() ==> (#[trigger] ps[k]).len() > 0,
        forall|k: int, i: int| 0 <= k < ps.len() && 0 <= i < ps[k].len() ==> !is_whitespace_char(#[trigger] ps[k][i]),
    ensures
        trimmed_nonempty(ps) == ps,
    decreases ps.len(),
{
    if ps.len() > 0 {
        let front = ps.drop_last();
        assert forall|k: int, i: int| 0 <= k < front.len() && 0 <= i < front[k].len() implies !is_whitespace_char(#[trigger] front[k][i]) by {
            assert(front[k] == ps[k]);
        }
        lemma_trimmed_nonempty_clean(front);
        let l = ps.last();
        assert forall|i: int| 0 <= i < l.len() implies !is_whitespace_char(#[trigger] l[i]) by {
            assert(ps[ps.len() - 1][i] == l[i]);
        }
        lemma_trim_no_whitespace(l);
        assert(ps[ps.len() - 1].len() > 0);
        assert(front.push(l) == ps);
    }
}

/// A name written `Main(Sub1,Sub2,...)`, with a main part without `(` and
/// sub parts without `,`, neither with whitespace and every sub part
/// non-empty, reads back as exactly that main part and those sub parts.
pub proof fn lemma_main_sub_of_written(m: Seq<char>, subs: Seq<Seq<char>>)
    requires
        subs.len() >= 1,
        forall|i: int| 0 <= i < m.len() ==> #[trigger] m[i] != '(' && !is_whitespace_char(m[i]),
        forall|k: int| 0 <= k < subs.len() ==> (#[trigger] subs[k]).len() > 0,
        forall|k: int, i: int| 0 <= k < subs.len() && 0 <= i < subs[k].len() ==> #[trigger] subs[k][i] != ','
            && !is_whitespace_char(subs[k][i]),
    ensures
        main_sub_of(m + seq!['('] + join_commas(subs) + seq![')']) == Some((m, subs)),
{
    let j = join_commas(subs);
    let name = m + seq!['('] + j + seq![')'];
    let p = m.len() as int;
    assert(name[0] == if m.len() > 0 { m[0] } else { '(' });
    assert(name.last() == ')');
    assert(trim_start(name) == name);
    assert(trim_end(name) == name);
    assert(trim(name) == name);
    assert forall|i: int| 0 <= i < p implies name[i] != '(' by {
        assert(name[i] == m[i]);
    }
    assert(name[p] == '(');
    lemma_first_from_at(name, 0, p, '(');
    assert(name.take(p) == m);
    lemma_trim_no_whitespace(m);
    assert(name.subrange(p + 1, name.len() - 1) == j);
    lemma_split_join_commas(subs);
    lemma_trimmed_nonempty_clean(subs);
}

/// The comma-separated pieces of `inside`, trimmed, empty ones dropped.
fn split_trimmed(inside: &Vec<char>) -> (r: Vec<String>)
    ensures
        views(r@) == trimmed_nonempty(split_commas(inside@)),
{
    let mut out: Vec<String> = Vec::new();
    let mut cur: Vec<char> = Vec::new();
    let ghost mut done: Seq<Seq<char>> = Seq::empty();
    assert(inside@.take(0) =~= Seq::<char>::empty());
    assert(views(out@) =~= Seq::<Seq<char>>::empty());
    for i in 0..inside.len()
        invariant
            split_commas(inside@.take(i as int)) == done.push(cur@),
            views(out@) == trimmed_nonempty(done),
    {
        let c = inside[i];
        assert(inside@.take(i + 1).drop_last() == inside@.take(i as int));
        if c == ',' {
            let t = trim_chars(&cur);
            let ghost old_out = out@;
            if t.len() > 0 {
                out.push(string_of(&t));
                assert(views(out@) =~= views(old_out).push(t@));
            }
            proof {
                assert(done.push(cur@).drop_last() == done);
                done = done.push(cur@);
            }
            cur = Vec::new();
            assert(split_commas(inside@.take(i + 1)) =~= done.push(cur@));
        } else {
            let ghost old_cur = cur@;
            cur.push(c);
            assert(split_commas(inside@.take(i + 1)) =~= done.push(cur@));
        }
    }
    assert(inside@.take(inside@.len() as int) == inside@);
    let t = trim_chars(&cur);
    let ghost old_out = out@;
    if t.len() > 0 {
        out.push(string_of(&t));
        assert(views(out@) =~= views(old_out).push(t@));
    }
    assert(done.push(cur@).drop_last() == done);
    out
}

/// Reads a folder name of the form `Main(Sub1, Sub2)` into its main part and
/// its sub parts; `None` when the name has no such form.
pub fn parse_main_sub(name: &str) -> (r: Option<(String, Vec<String>)>)
    ensures
        r matches Some((m, subs)) ==> main_sub_of(name@) == Some((m@, views(subs@))),
        r is None ==> main_sub_of(name@) is None,
{
    let chars = chars_of(name);
    let t = trim_chars(&chars);
    let p = match find_char_from(&t, 0, '(') {
        Some(p) => p,
        None => return None,
    };
    proof {
        lemma_first_from_bounds(t@, 0, '(');
    }
    if t.len() == 0 || t[t.len() - 1] != ')' {
        return None;
    }
    let head = slice_chars(&t, 0, p);
    assert(head@ == t@.take(p as int));
    let main = trim_chars(&head);
    let inside = slice_chars(&t, p + 1, t.len() - 1);
    let subs = split_trimmed(&inside);
    if main.len() == 0 && subs.len() == 0 {
        return None;
    }
    Some((string_of(&main), subs))
}

/// Keys derived from the sub parts of a folder name, each leading to `folder`.
pub open spec fn sub_keys(subs: Seq<Seq<char>>, folder: Seq<char>) -> Seq<EntryView>
    decreases subs.len(),
{
    if subs.len() == 0 {
        Seq::empty()
    } else {
        let r = sub_keys(subs.drop_last(), folder);
        let k = normalized(subs.last());
        if k.len() > 0 {
            r.push((k, folder))
        } else {
            r
        }
    }
}

/// A one-entry sequence `(key, folder)`, or nothing when the key is empty.
pub open spec fn key_if_nonempty(key: Seq<char>, folder: Seq<char>) -> Seq<EntryView> {
    if key.len() > 0 {
        seq![(key, folder)]
    } else {
        Seq::empty()
    }
}

/// The keys a folder name contributes: its own normalised form, then, for a
/// `Main(Sub...)` name, the normalised main part and each normalised sub
/// part; empty keys are left out. Every key leads to the folder name itself.
pub open spec fn keys_for_folder(folder: Seq<char>) -> Seq<EntryView> {
    key_if_nonempty(normalized(folder), folder) + match main_sub_of(folder) {
        None => Seq::empty(),
        Some((m, subs)) => key_if_nonempty(normalized(m), folder) + sub_keys(subs, folder),
    }
}

/// The keys derived from sub parts: each sub part with a non-empty
/// normalised form gives its key, every key comes from one sub part, and
/// each leads to `folder`.
pub proof fn lemma_sub_keys_contents(subs: Seq<Seq<char>>, folder: Seq<char>)
    ensures
        forall|j: int| 0 <= j < subs.len() && normalized(#[trigger] subs[j]).len() > 0 ==> sub_keys(subs, folder).contains(
            (normalized(subs[j]), folder),
        ),
        forall|e: EntryView| #[trigger] sub_keys(subs, folder).contains(e) ==> e.1 == folder && e.0.len() > 0
            && exists|j: int| 0 <= j < subs.len() && e.0 == normalized(#[trigger] subs[j]),
    decreases subs.len(),
{
    if subs.len() > 0 {
        let front = subs.drop_last();
        lemma_sub_keys_contents(front, folder);
        let r = sub_keys(front, folder);
        let k = normalized(subs.last());
        assert forall|j: int| 0 <= j < subs.len() && normalized(#[trigger] subs[j]).len() > 0 implies sub_keys(subs, folder).contains(
            (normalized(subs[j]), folder),
        ) by {
            if j < front.len() {
                assert(front[j] == subs[j]);
                assert(r.contains((normalized(front[j]), folder)));
                if k.len() > 0 {
                    crate::text::lemma_push_contains(r, (k, folder), (normalized(subs[j]), folder));
                }
            } else {
                crate::text::lemma_push_contains(r, (k, folder), (k, folder));
            }
        }
        assert forall|e: EntryView| #[trigger] sub_keys(subs, folder).contains(e) implies e.1 == folder && e.0.len() > 0
            && exists|j: int| 0 <= j < subs.len() && e.0 == normalized(#[trigger] subs[j]) by {
            if k.len() > 0 {
                crate::text::lemma_push_contains(r, (k, folder), e);
            }
            if r.contains(e) {
                let j = choose|j: int| 0 <= j < front.len() && e.0 == normalized(#[trigger] front[j]);
                assert(front[j] == subs[j]);
            } else {
                assert(e.0 == normalized(subs[subs.len() - 1]));
            }
        }
    }
}

/// The keys a folder name gives: its normalised name, and for a
/// `Main(Sub...)` name its normalised main part and every normalised sub
/// part, each when not empty; nothing else, and every key leads to the
/// folder name.
pub proof fn lemma_keys_for_folder_contents(folder: Seq<char>)
    ensures
        normalized(folder).len() > 0 ==> keys_for_folder(folder).contains((normalized(folder), folder)),
        main_sub_of(folder) matches Some((m, subs)) ==> (normalized(m).len() > 0 ==> keys_for_folder(folder).contains(
            (normalized(m), folder),
        )) && forall|j: int| 0 <= j < subs.len() && normalized(#[trigger] subs[j]).len() > 0
            ==> keys_for_folder(folder).contains((normalized(subs[j]), folder)),
        forall|e: EntryView| #[trigger] keys_for_folder(folder).contains(e) ==> e.1 == folder && e.0.len() > 0 && (
        e.0 == normalized(folder) || (main_sub_of(folder) matches Some((m, subs)) && (e.0 == normalized(m)
            || exists|j: int| 0 <= j < subs.len() && e.0 == normalized(#[trigger] subs[j])))),
{
    let full = key_if_nonempty(normalized(folder), folder);
    let kf = keys_for_folder(folder);
    if normalized(folder).len() > 0 {
        assert(kf[0] == (normalized(folder), folder));
    }
    match main_sub_of(folder) {
        Some((m, subs)) => {
            let mk = key_if_nonempty(normalized(m), folder);
            let sk = sub_keys(subs, folder);
            lemma_sub_keys_contents(subs, folder);
            assert(kf == full + (mk + sk));
            if normalized(m).len() > 0 {
                assert(kf[full.len() as int] == (normalized(m), folder));
            }
            assert forall|j: int| 0 <= j < subs.len() && normalized(#[trigger] subs[j]).len() > 0
                implies kf.contains((normalized(subs[j]), folder)) by {
                let t = choose|t: int| 0 <= t < sk.len() && sk[t] == (normalized(subs[j]), folder);
                assert(kf[full.len() + mk.len() + t] == sk[t]);
            }
            assert forall|e: EntryView| #[trigger] kf.contains(e) implies e.1 == folder && e.0.len() > 0 && (
            e.0 == normalized(folder) || (e.0 == normalized(m)
                || exists|j: int| 0 <= j < subs.len() && e.0 == normalized(#[trigger] subs[j]))) by {
                let t = choose|t: int| 0 <= t < kf.len() && kf[t] == e;
                if t >= full.len() + mk.len() {
                    assert(sk[t - full.len() - mk.len()] == e);
                    assert(sk.contains(e));
                }
            }
        },
        None => {
            assert(kf == full);
        },
    }
}

/// The views of a sequence of string pairs.
pub open spec fn pair_views(v: Seq<(String, String)>) -> Seq<EntryView> {
    v.map_values(|p: (String, String)| (p.0@, p.1@))
}

/// Appends `(normalize(part), folder)` unless the normalised part is empty.
fn push_key(entries: &mut Vec<(String, String)>, part: &str, folder: &str)
    ensures
        pair_views(final(entries)@) == pair_views(old(entries)@) + key_if_nonempty(normalized(part@), folder@),
{
    let key = normalize(part);
    let ghost before = entries@;
    if key.as_str().unicode_len() > 0 {
        entries.push((key, copy_str(folder)));
        assert(pair_views(entries@) =~= pair_views(before) + key_if_nonempty(normalized(part@), folder@));
    } else {
        assert(pair_views(entries@) =~= pair_views(before) + key_if_nonempty(normalized(part@), folder@));
    }
}

/// The dictionary entries a folder name gives: its full normalised name and,
/// for a `Main(Sub...)` name, its normalised main and sub parts, each
/// leading to the folder name.
pub fn generate_keys_from_folder_name(folder_name: &str) -> (r: Vec<(String, String)>)
    ensures
        pair_views(r@) == keys_for_folder(folder_name@),
        normalized(folder_name@).len() > 0 ==> pair_views(r@).contains((normalized(folder_name@), folder_name@)),
        main_sub_of(folder_name@) matches Some((m, subs)) ==> (normalized(m).len() > 0 ==> pair_views(r@).contains(
            (normalized(m), folder_name@),
        )) && forall|j: int| 0 <= j < subs.len() && normalized(#[trigger] subs[j]).len() > 0
            ==> pair_views(r@).contains((normalized(subs[j]), folder_name@)),
        forall|e: EntryView| #[trigger] pair_views(r@).contains(e) ==> e.1 == folder_name@ && e.0.len() > 0,
{
    proof {
        lemma_keys_for_folder_contents(folder_name@);
    }
    let mut entries: Vec<(String, String)> = Vec::new();
    assert(pair_views(entries@) =~= Seq::<EntryView>::empty());
    push_key(&mut entries, folder_name, folder_name);
    let ghost full = pair_views(entries@);
    match parse_main_sub(folder_name) {
        Some((main_part, subs)) => {
            push_key(&mut entries, main_part.as_str(), folder_name);
            let ghost with_main = pair_views(entries@);
            for i in 0..subs.len()
                invariant
                    pair_views(entries@) == with_main + sub_keys(views(subs@).take(i as int), folder_name@),
            {
                assert(views(subs@).take(i + 1).drop_last() == views(subs@).take(i as int));
                push_key(&mut entries, subs[i].as_str(), folder_name);
            }
            assert(views(subs@).take(subs@.len() as int) == views(subs@));
        },
        None => {},
    }
    assert(pair_views(entries@) =~= keys_for_folder(folder_name@));
    entries
}

/// The folder names of a dictionary, each once, in order of first appearance.
pub open spec fn distinct_folders(s: Seq<EntryView>) -> Seq<Seq<char>>
    decreases s.len(),
{
    if s.len() == 0 {
        Seq::empty()
    } else {
        let r = distinct_folders(s.drop_last());
        if r.contains(s.last().1) {
            r
        } else {
            r.push(s.last().1)
        }
    }
}

/// The folder names of the dictionary, each once, in order of first appearance.
pub fn dictionary_folders(dict: &Dictionary) -> (r: Vec<String>)
    requires
        dict.wf(),
    ensures
        views(r@) == distinct_folders(dict@),
{
    let mut r: Vec<String> = Vec::new();
    let n = dict.len();
    assert(views(r@) =~= distinct_folders(dict@.take(0)));
    for i in 0..n
        invariant
            dict.wf(),
            n == dict@.len(),
            views(r@) == distinct_folders(dict@.take(i as int)),
    {
        let folder = dict.folder_at(i);
        assert(dict@.take(i + 1).drop_last() == dict@.take(i as int));
        let ghost before = views(r@);
        if !contains_str(&r, folder.as_str()) {
            r.push(folder.clone());
            assert(views(r@) =~= before.push(folder@));
        }
    }
    assert(dict@.take(n as int) == dict@);
    r
}

/// What `distinct_folders` holds: each folder of the dictionary, once.
pub proof fn lemma_distinct_folders(s: Seq<EntryView>)
    ensures
        distinct_folders(s).no_duplicates(),
        forall|f: Seq<char>| distinct_folders(s).contains(f) <==> exists|i: int| 0 <= i < s.len() && (#[trigger] s[i]).1 == f,
    decreases s.len(),
{
    if s.len() > 0 {
        let r = distinct_folders(s.drop_last());
        lemma_distinct_folders(s.drop_last());
        assert forall|f: Seq<char>| distinct_folders(s).contains(f) <==> exists|i: int| 0 <= i < s.len() && (#[trigger] s[i]).1 == f by {
            crate::text::lemma_push_contains(r, s.last().1, f);
            if exists|i: int| 0 <= i < s.len() && (#[trigger] s[i]).1 == f {
                let i = choose|i: int| 0 <= i < s.len() && (#[trigger] s[i]).1 == f;
                if i < s.len() - 1 {
                    assert(s.drop_last()[i].1 == f);
                }
            }
            if r.contains(f) {
                let i = choose|i: int| 0 <= i < s.drop_last().len() && (#[trigger] s.drop_last()[i]).1 == f;
                assert(s[i].1 == f);
            }
        }
    }
}

impl View for DictionaryGroup {
    type V = (Seq<char>, Seq<Seq<char>>);

    open spec fn view(&self) -> (Seq<char>, Seq<Seq<char>>) {
        (self.folder_name@, views(self.keys@))
    }
}

/// The folder names of the groups.
pub open spec fn group_folders(groups: Seq<DictionaryGroup>) -> Seq<Seq<char>> {
    groups.map_values(|g: DictionaryGroup| g.folder_name@)
}

/// The keys of `dict` that lead to `folder`, in dictionary order.
fn keys_leading_to(dict: &Dictionary, folder: &str) -> (r: Vec<String>)
    requires
        dict.wf(),
    ensures
        views(r@).no_duplicates(),
        forall|k: Seq<char>| views(r@).contains(k) <==> dict@.contains((k, folder@)),
{
    let mut r: Vec<String> = Vec::new();
    let n = dict.len();
    for i in 0..n
        invariant
            dict.wf(),
            n == dict@.len(),
            views(r@).no_duplicates(),
            forall|k: Seq<char>| views(r@).contains(k) <==> dict@.take(i as int).contains((k, folder@)),
    {
        let ghost before = views(r@);
        let k = dict.key_at(i);
        let f = dict.folder_at(i);
        proof {
            assert(dict@.take(i + 1) == dict@.take(i as int).push(dict@[i as int]));
        }
        if str_equal(f.as_str(), folder) {
            proof {
                if before.contains(k@) {
                    assert(dict@.take(i as int).contains((k@, folder@)));
                    let j = choose|j: int| 0 <= j < i && dict@.take(i as int)[j] == (k@, folder@);
                    assert(dict@[j].0 == dict@[i as int].0);
                }
            }
            r.push(k.clone());
            proof {
                assert(views(r@) =~= before.push(k@));
                assert forall|a: int, b: int| 0 <= a < b < views(r@).len() implies views(r@)[a] != views(r@)[b] by {
                    if b == before.len() {
                        assert(before.contains(before[a]));
                    }
                }
            }
        } else {
            assert(views(r@) == before);
        }
        proof {
            assert forall|kk: Seq<char>| views(r@).contains(kk) <==> dict@.take(i + 1).contains((kk, folder@)) by {
                crate::text::lemma_push_contains(dict@.take(i as int), dict@[i as int], (kk, folder@));
                crate::text::lemma_push_contains(before, k@, kk);
            }
        }
    }
    assert(dict@.take(n as int) == dict@);
    r
}

/// The dictionary as groups, one per folder: the groups in the order of
/// their folder names, each with the keys that lead to its folder, in order.
pub fn dictionary_to_groups(dict: &Dictionary) -> (groups: Vec<DictionaryGroup>)
    requires
        dict.wf(),
    ensures
        strictly_sorted(group_folders(groups@)),
        forall|f: Seq<char>| group_folders(groups@).contains(f)
            <==> exists|i: int| 0 <= i < dict@.len() && (#[trigger] dict@[i]).1 == f,
        forall|g: int| 0 <= g < groups.len() ==> strictly_sorted((#[trigger] groups@[g])@.1),
        forall|g: int, k: Seq<char>| 0 <= g < groups.len() ==> (
            #[trigger] groups@[g]@.1.contains(k) <==> dict@.contains((k, groups@[g]@.0))),
{
    let folders = dictionary_folders(dict);
    proof {
        lemma_distinct_folders(dict@);
    }
    let sorted = sort_strings(folders);
    let mut groups: Vec<DictionaryGroup> = Vec::new();
    for i in 0..sorted.len()
        invariant
            dict.wf(),
            strictly_sorted(views(sorted@)),
            groups.len() == i,
            group_folders(groups@) == views(sorted@).take(i as int),
            forall|g: int| 0 <= g < groups.len() ==> strictly_sorted((#[trigger] groups@[g])@.1),
            forall|g: int, k: Seq<char>| 0 <= g < groups.len() ==> (
                #[trigger] groups@[g]@.1.contains(k) <==> dict@.contains((k, groups@[g]@.0))),
    {
        let folder = &sorted[i];
        let keys = keys_leading_to(dict, folder.as_str());
        let sorted_keys = sort_strings(keys);
        let ghost before = groups@;
        groups.push(DictionaryGroup { folder_name: folder.clone(), keys: sorted_keys });
        proof {
            assert(group_folders(groups@) =~= views(sorted@).take(i + 1));
            assert forall|g: int, k: Seq<char>| 0 <= g < groups.len() implies (
                #[trigger] groups@[g]@.1.contains(k) <==> dict@.contains((k, groups@[g]@.0))) by {
                if g < i {
                    assert(groups@[g] == before[g]);
                }
            }
            assert forall|g: int| 0 <= g < groups.len() implies strictly_sorted((#[trigger] groups@[g])@.1) by {
                if g < i {
                    assert(groups@[g] == before[g]);
                }
            }
        }
    }
    assert(views(sorted@).take(sorted.len() as int) == views(sorted@));
    groups
}

} // verus!
