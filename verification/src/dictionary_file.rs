//! The dictionary file: a JSON object from keys to folder names. Reading
//! normalises the keys and reports what it had to correct or skip; writing
//! orders the keys.
use vstd::prelude::*;
use crate::dictionary::{
    index_of_key, inserted, keys_distinct, lemma_index_of_key, lookup, pair_views, Dictionary, EntryView,
};
use crate::normalize::{normalize, normalized};
use crate::order::{lemma_seq_less_irreflexive, seq_less, sort_strings, strictly_sorted};
use crate::text::{str_equal, views};

verus! {

#[verifier::external_type_specification]
#[verifier::external_body]
pub struct ExJsonError(serde_json::Error);

/// A member of a JSON object: its key, and its value when that is a string.
pub struct JsonMember {
    pub key: String,
    pub value: Option<String>,
}

/// A member as (key, string value if any).
pub open spec fn member_view(m: JsonMember) -> (Seq<char>, Option<Seq<char>>) {
    (m.key@, match m.value {
        Some(v) => Some(v@),
        None => None,
    })
}

/// The members of a sequence, as (key, string value if any).
pub open spec fn member_views(v: Seq<JsonMember>) -> Seq<(Seq<char>, Option<Seq<char>>)> {
    v.map_values(|m: JsonMember| member_view(m))
}

/// What `serde_json::from_str` makes of a text read as a `Value`: `None`
/// when it is not valid JSON; `Some(None)` when the top level is not an
/// object; else the members of the object in the order the object iterates
/// them, each with its value when that is a string.
pub uninterp spec fn json_object_members(content: Seq<char>) -> Option<Option<Seq<(Seq<char>, Option<Seq<char>>)>>>;

/// `serde_json::from_str` into a `Value`, read as the members of a
/// top-level object: its result is named `json_object_members`.
#[verifier::external_body]
fn parse_json_object(content: &str) -> (r: Result<Option<Vec<JsonMember>>, serde_json::Error>)
    ensures
        r matches Ok(Some(members)) ==> json_object_members(content@) == Some(Some(member_views(members@))),
        r matches Ok(None) ==> json_object_members(content@) == Some(None::<Seq<(Seq<char>, Option<Seq<char>>)>>),
        r is Err ==> json_object_members(content@) is None,
{
    let value: serde_json::Value = serde_json::from_str(content)?;
    Ok(value.as_object().map(|object| object.iter().map(|(k, v)| JsonMember {
        key: k.clone(),
        value: v.as_str().map(|s| s.to_string()),
    }).collect()))
}

/// `Display` of a `serde_json::Error`: the error's message. Nothing is
/// stated of the text.
#[verifier::external_body]
fn json_error_text(e: &serde_json::Error) -> String {
    e.to_string()
}

/// Why a dictionary file could not be read.
#[derive(Debug, Clone)]
pub enum DictionaryLoadError {
    /// The text is not JSON; the parser's message.
    InvalidJson(String),
    /// The top level is not an object.
    NotAnObject,
}

/// Something corrected or skipped while reading a dictionary file.
#[derive(Debug, Clone)]
pub enum DictionaryWarning {
    /// A key was not in normal form; it was stored normalised.
    KeyNotNormalized { key: String, normalized: String },
    /// A value was not a string; the member was skipped.
    NotAString { key: String },
}

impl View for DictionaryWarning {
    type V = (Seq<char>, Option<Seq<char>>);

    /// (key, its normal form) for a key out of normal form; (key, nothing)
    /// for a value that is not a string.
    open spec fn view(&self) -> (Seq<char>, Option<Seq<char>>) {
        match self {
            DictionaryWarning::KeyNotNormalized { key, normalized } => (key@, Some(normalized@)),
            DictionaryWarning::NotAString { key } => (key@, None),
        }
    }
}

/// The dictionary the members of a file make: each member with a string
/// value, in order, makes its normalised key lead to that value.
pub open spec fn dictionary_of_members(ms: Seq<(Seq<char>, Option<Seq<char>>)>) -> Seq<EntryView>
    decreases ms.len(),
{
    if ms.len() == 0 {
        Seq::empty()
    } else {
        let r = dictionary_of_members(ms.drop_last());
        match ms.last().1 {
            Some(v) => inserted(r, normalized(ms.last().0), v),
            None => r,
        }
    }
}

/// The warnings the members of a file give, in order.
pub open spec fn warnings_of_members(ms: Seq<(Seq<char>, Option<Seq<char>>)>) -> Seq<(Seq<char>, Option<Seq<char>>)>
    decreases ms.len(),
{
    if ms.len() == 0 {
        Seq::empty()
    } else {
        let r = warnings_of_members(ms.drop_last());
        let k = ms.last().0;
        match ms.last().1 {
            Some(v) => if normalized(k) != k {
                r.push((k, Some(normalized(k))))
            } else {
                r
            },
            None => r.push((k, None)),
        }
    }
}

/// The views of a sequence of warnings.
pub open spec fn warning_views(v: Seq<DictionaryWarning>) -> Seq<(Seq<char>, Option<Seq<char>>)> {
    v.map_values(|w: DictionaryWarning| w@)
}

/// Builds a dictionary from the members of a dictionary file, in order:
/// each member with a string value makes its normalised key lead to that
/// value; a key out of normal form and a value that is not a string are
/// reported as warnings, in order.
pub fn dictionary_from_members(members: &Vec<JsonMember>) -> (r: (Dictionary, Vec<DictionaryWarning>))
    ensures
        r.0.wf(),
        r.0@ == dictionary_of_members(member_views(members@)),
        warning_views(r.1@) == warnings_of_members(member_views(members@)),
{
    let ghost ms = member_views(members@);
    let mut dict = Dictionary::new();
    let mut warnings: Vec<DictionaryWarning> = Vec::new();
    assert(warning_views(warnings@) =~= warnings_of_members(ms.take(0)));
    for i in 0..members.len()
        invariant
            ms == member_views(members@),
            dict.wf(),
            dict@ == dictionary_of_members(ms.take(i as int)),
            warning_views(warnings@) == warnings_of_members(ms.take(i as int)),
    {
        let member = &members[i];
        assert(ms.take(i + 1).drop_last() == ms.take(i as int));
        assert(ms.take(i + 1).last() == member_view(members@[i as int]));
        let ghost before = warning_views(warnings@);
        match &member.value {
            Some(folder_name) => {
                let normalized_key = normalize(member.key.as_str());
                if !str_equal(normalized_key.as_str(), member.key.as_str()) {
                    warnings.push(DictionaryWarning::KeyNotNormalized {
                        key: member.key.clone(),
                        normalized: normalized_key.clone(),
                    });
                    assert(warning_views(warnings@) =~= before.push((member.key@, Some(normalized_key@))));
                } else {
                    assert(warning_views(warnings@) =~= before);
                }
                dict.insert(normalized_key, folder_name.clone());
            },
            None => {
                warnings.push(DictionaryWarning::NotAString { key: member.key.clone() });
                assert(warning_views(warnings@) =~= before.push((member.key@, None)));
            },
        }
    }
    assert(ms.take(members.len() as int) == ms);
    (dict, warnings)
}

/// Reads the text of a dictionary file: a JSON object whose string members
/// map keys to folder names. Keys are normalised; members whose value is
/// not a string are skipped. Both are reported as warnings.
pub fn parse_dictionary(content: &str) -> (r: Result<(Dictionary, Vec<DictionaryWarning>), DictionaryLoadError>)
    ensures
        json_object_members(content@) is None <==> r matches Err(DictionaryLoadError::InvalidJson(_)),
        json_object_members(content@) == Some(None::<Seq<(Seq<char>, Option<Seq<char>>)>>)
            <==> r matches Err(DictionaryLoadError::NotAnObject),
        r matches Ok((d, w)) ==> json_object_members(content@) matches Some(Some(ms)) && d.wf()
            && d@ == dictionary_of_members(ms) && warning_views(w@) == warnings_of_members(ms),
        json_object_members(content@) matches Some(Some(_)) ==> r is Ok,
{
    match parse_json_object(content) {
        Err(e) => Err(DictionaryLoadError::InvalidJson(json_error_text(&e))),
        Ok(None) => Err(DictionaryLoadError::NotAnObject),
        Ok(Some(members)) => Ok(dictionary_from_members(&members)),
    }
}

/// The JSON text `serde_json::to_string_pretty` writes for an object with
/// these members, all string-valued, in order.
pub uninterp spec fn pretty_json_object(members: Seq<EntryView>) -> Seq<char>;

/// Entries as the members of a JSON object whose values are all strings.
pub open spec fn string_members(entries: Seq<EntryView>) -> Seq<(Seq<char>, Option<Seq<char>>)> {
    entries.map_values(|e: EntryView| (e.0, Some(e.1)))
}

/// The keys of the entries, in order.
pub open spec fn entry_keys(entries: Seq<EntryView>) -> Seq<Seq<char>> {
    entries.map_values(|e: EntryView| e.0)
}

/// `serde_json::to_string_pretty` of an object made of string members:
/// its text is named `pretty_json_object`. When the keys are strictly
/// ordered, reading that text back with `serde_json::from_str` gives the same
/// members in the same order: JSON strings are escaped and unescaped
/// exactly, and `serde_json::Map` (a `BTreeMap` here) keeps its keys in
/// order, which for distinct ordered keys is the order they were written in.
/// It always succeeds: the serializer fails only on an I/O error, and writing
/// into a `Vec` has none, or on a map key that is not a string, and every key
/// here is a `String`.
#[verifier::external_body]
fn write_json_object(members: &Vec<(String, String)>) -> (r: Result<String, serde_json::Error>)
    ensures
        r is Ok,
        r matches Ok(text) ==> text@ == pretty_json_object(pair_views(members@)),
        r matches Ok(text) ==> (strictly_sorted(entry_keys(pair_views(members@))) ==> json_object_members(
            text@,
        ) == Some(Some(string_members(pair_views(members@))))),
{
    let object: serde_json::Map<String, serde_json::Value> = members.iter().map(
        |(k, v)| (k.clone(), serde_json::Value::String(v.clone())),
    ).collect();
    serde_json::to_string_pretty(&serde_json::Value::Object(object))
}

/// Every key is its own normalised form.
pub open spec fn keys_normalized(s: Seq<EntryView>) -> bool {
    forall|i: int| 0 <= i < s.len() ==> normalized(#[trigger] s[i].0) == s[i].0
}

/// Members whose keys are distinct and normalised, all with string values,
/// make exactly the entries they list, and give no warning.
pub proof fn lemma_members_read_back(e: Seq<EntryView>)
    requires
        keys_distinct(e),
        keys_normalized(e),
    ensures
        dictionary_of_members(string_members(e)) == e,
        warnings_of_members(string_members(e)) == Seq::<(Seq<char>, Option<Seq<char>>)>::empty(),
    decreases e.len(),
{
    if e.len() > 0 {
        let front = e.drop_last();
        assert(string_members(e).drop_last() == string_members(front));
        assert(string_members(e).last() == (e.last().0, Some(e.last().1)));
        assert(normalized(e[e.len() - 1].0) == e[e.len() - 1].0);
        lemma_members_read_back(front);
        lemma_index_of_key(front, e.last().0);
        if let Some(j) = index_of_key(front, e.last().0) {
            assert(e[j].0 == e[e.len() - 1].0);
        }
        assert(front.push(e.last()) == e);
    } else {
        assert(string_members(e) =~= Seq::<(Seq<char>, Option<Seq<char>>)>::empty());
    }
}

/// The entries of a dictionary ordered by key: the keys in the order of
/// strings, each with its folder.
pub fn sorted_entries(dict: &Dictionary) -> (r: Vec<(String, String)>)
    requires
        dict.wf(),
    ensures
        strictly_sorted(pair_views(r@).map_values(|e: EntryView| e.0)),
        pair_views(r@).len() == dict@.len(),
        forall|i: int| 0 <= i < r.len() ==> lookup(dict@, #[trigger] pair_views(r@)[i].0) == Some(pair_views(r@)[i].1),
        keys_distinct(pair_views(r@)),
        forall|k: Seq<char>| lookup(pair_views(r@), k) == lookup(dict@, k),
{
    let mut keys: Vec<String> = Vec::new();
    let n = dict.len();
    for i in 0..n
        invariant
            dict.wf(),
            n == dict@.len(),
            keys.len() == i,
            forall|j: int| 0 <= j < i ==> #[trigger] keys@[j]@ == dict@[j].0,
    {
        keys.push(dict.key_at(i).clone());
    }
    proof {
        dict.lemma_keys_distinct();
        assert forall|a: int, b: int| 0 <= a < b < views(keys@).len() implies views(keys@)[a] != views(keys@)[b] by {
            assert(keys@[a]@ == dict@[a].0);
            assert(keys@[b]@ == dict@[b].0);
        }
    }
    let sorted = sort_strings(keys);
    let mut r: Vec<(String, String)> = Vec::new();
    for i in 0..sorted.len()
        invariant
            dict.wf(),
            n == dict@.len(),
            strictly_sorted(views(sorted@)),
            views(sorted@).len() == n,
            forall|s: Seq<char>| views(sorted@).contains(s) <==> views(keys@).contains(s),
            forall|j: int| 0 <= j < n ==> #[trigger] keys@[j]@ == dict@[j].0,
            keys.len() == n,
            r.len() == i,
            forall|j: int| 0 <= j < i ==> (#[trigger] pair_views(r@)[j]).0 == views(sorted@)[j]
                && lookup(dict@, pair_views(r@)[j].0) == Some(pair_views(r@)[j].1),
    {
        let k = &sorted[i];
        proof {
            dict.lemma_keys_distinct();
            assert(views(sorted@)[i as int] == k@);
            assert(views(sorted@).contains(k@));
            let j = choose|j: int| 0 <= j < n && views(keys@)[j] == k@;
            assert(keys@[j]@ == dict@[j].0);
            crate::dictionary::lemma_lookup_at(dict@, j);
        }
        match dict.get(k.as_str()) {
            Some(folder) => {
                let ghost before = pair_views(r@);
                r.push((k.clone(), folder.clone()));
                assert(pair_views(r@) =~= before.push((k@, folder@)));
            },
            None => {},
        }
    }
    assert(pair_views(r@).map_values(|e: EntryView| e.0) =~= views(sorted@));
    proof {
        let pv = pair_views(r@);
        assert forall|a: int, b: int| 0 <= a < b < pv.len() implies pv[a].0 != pv[b].0 by {
            assert(seq_less(views(sorted@)[a], views(sorted@)[b]));
            lemma_seq_less_irreflexive(pv[a].0);
        }
        assert forall|k: Seq<char>| lookup(pv, k) == lookup(dict@, k) by {
            lemma_index_of_key(dict@, k);
            lemma_index_of_key(pv, k);
            if let Some(m) = index_of_key(dict@, k) {
                assert(views(keys@)[m] == k);
                assert(views(sorted@).contains(k));
                let j = choose|j: int| 0 <= j < views(sorted@).len() && views(sorted@)[j] == k;
                assert(pv[j].0 == k);
                crate::dictionary::lemma_lookup_at(pv, j);
            }
        }
    }
    r
}

/// The text of a dictionary file: a JSON object of the entries, ordered by
/// key. Reading that text back gives members that make a dictionary in
/// which every key leads where it led here, with no warning, whenever the
/// keys are in normal form (as the keys of a loaded dictionary are).
/// Writing the text always succeeds.
pub fn dictionary_json(dict: &Dictionary) -> (r: Result<String, String>)
    requires
        dict.wf(),
    ensures
        r is Ok,
        r matches Ok(text) ==> exists|entries: Seq<EntryView>| text@ == pretty_json_object(entries)
            && strictly_sorted(entries.map_values(|e: EntryView| e.0))
            && entries.len() == dict@.len()
            && forall|i: int| 0 <= i < entries.len() ==> lookup(dict@, #[trigger] entries[i].0) == Some(entries[i].1),
        r matches Ok(text) ==> (json_object_members(text@) matches Some(Some(ms)) && (keys_normalized(dict@) ==> (
            forall|k: Seq<char>| #[trigger] lookup(dictionary_of_members(ms), k) == lookup(dict@, k))
            && warnings_of_members(ms).len() == 0)),
{
    let entries = sorted_entries(dict);
    match write_json_object(&entries) {
        Ok(text) => {
            let ghost pv = pair_views(entries@);
            assert(text@ == pretty_json_object(pv));
            assert(entry_keys(pv) == pv.map_values(|e: EntryView| e.0));
            assert(json_object_members(text@) == Some(Some(string_members(pv))));
            proof {
                if keys_normalized(dict@) {
                    assert forall|i: int| 0 <= i < pv.len() implies normalized(#[trigger] pv[i].0) == pv[i].0 by {
                        assert(lookup(dict@, pv[i].0) is Some);
                        lemma_index_of_key(dict@, pv[i].0);
                        let m = index_of_key(dict@, pv[i].0)->0;
                        assert(normalized(dict@[m].0) == dict@[m].0);
                    }
                    lemma_members_read_back(pv);
                }
            }
            Ok(text)
        },
        Err(e) => Err(json_error_text(&e)),
    }
}

} // verus!
