//! Similar names: the keys a name is compared by, the similarity rule, the
//! fallback lookup of a tag in the dictionary, and the grouping of similar
//! folders.
use vstd::prelude::*;
use crate::dictionary::{dictionary_folders, distinct_folders, main_sub_of, parse_main_sub, Dictionary, EntryView};
use crate::normalize::{normalize_for_similarity, similarity_key};
use crate::text::{contains_str, str_equal, views};
use crate::types::{SimilarCandidate, SimilarGroup, SmallFolder};
use crate::order::{lemma_seq_less_irreflexive, lemma_seq_less_transitive, seq_less, str_less};

verus! {

/// The keys a name is compared by: its main key, its sub keys, and all of
/// them together. For a `Main(Sub...)` name the main key is the similarity
/// key of the main part and the sub keys those of the sub parts; any other
/// name is its own main key and has no sub keys. Sub keys and all keys are
/// read as sets.
pub open spec fn name_keys(name: Seq<char>) -> (Seq<char>, Seq<Seq<char>>, Seq<Seq<char>>) {
    match main_sub_of(name) {
        Some((m, subs)) => {
            let sk = subs.map_values(|s: Seq<char>| similarity_key(s));
            (similarity_key(m), sk, seq![similarity_key(m)] + sk)
        },
        None => (similarity_key(name), Seq::empty(), seq![similarity_key(name)]),
    }
}

/// The similarity rule between the keys of two names: the same non-empty
/// main key; the same non-empty set of sub keys; the same non-empty set of
/// all keys; or one has no sub keys and its main key is a sub key of the other.
pub open spec fn similar(
    a: (Seq<char>, Seq<Seq<char>>, Seq<Seq<char>>),
    b: (Seq<char>, Seq<Seq<char>>, Seq<Seq<char>>),
) -> bool {
    ||| a.0.len() > 0 && a.0 == b.0
    ||| a.1.len() > 0 && b.1.len() > 0 && a.1.to_set() == b.1.to_set()
    ||| a.2.len() > 0 && a.2.to_set() == b.2.to_set()
    ||| a.1.len() == 0 && b.1.contains(a.0)
    ||| b.1.len() == 0 && a.1.contains(b.0)
}

/// The first name of a nonempty sequence is in its set; an empty sequence
/// has the empty set.
pub proof fn lemma_to_set_nonempty(s: Seq<Seq<char>>)
    ensures
        s.len() > 0 ==> s.to_set().contains(s[0]),
        s.len() == 0 ==> s.to_set() == Set::<Seq<char>>::empty(),
{
    if s.len() > 0 {
        assert(s.to_set().contains(s[0]));
    } else {
        assert(s.to_set() =~= Set::<Seq<char>>::empty());
    }
}

/// The rule does not depend on the order of the two names.
pub proof fn lemma_similar_symmetric(
    a: (Seq<char>, Seq<Seq<char>>, Seq<Seq<char>>),
    b: (Seq<char>, Seq<Seq<char>>, Seq<Seq<char>>),
)
    ensures
        similar(a, b) == similar(b, a),
{
    lemma_to_set_nonempty(a.2);
    lemma_to_set_nonempty(b.2);
}

/// Each of the five conditions makes two names similar: the same non-empty
/// main key; the same non-empty set of sub keys; the same non-empty set of
/// all keys; or one without sub keys whose main key is a sub key of the other.
pub proof fn lemma_similar_conditions(
    a: (Seq<char>, Seq<Seq<char>>, Seq<Seq<char>>),
    b: (Seq<char>, Seq<Seq<char>>, Seq<Seq<char>>),
)
    ensures
        a.0.len() > 0 && a.0 == b.0 ==> similar(a, b),
        a.1.len() > 0 && b.1.len() > 0 && a.1.to_set() == b.1.to_set() ==> similar(a, b),
        a.2.len() > 0 && a.2.to_set() == b.2.to_set() ==> similar(a, b),
        a.1.len() == 0 && b.1.contains(a.0) ==> similar(a, b),
        b.1.len() == 0 && a.1.contains(b.0) ==> similar(a, b),
{
}

/// Two `Main(Sub...)` names whose sub parts have the same non-empty set of
/// similarity keys are similar, whatever their main parts.
pub proof fn lemma_same_sub_keys_similar(
    n1: Seq<char>,
    n2: Seq<char>,
    m1: Seq<char>,
    s1: Seq<Seq<char>>,
    m2: Seq<char>,
    s2: Seq<Seq<char>>,
)
    requires
        main_sub_of(n1) == Some((m1, s1)),
        main_sub_of(n2) == Some((m2, s2)),
        s1.len() > 0,
        s2.len() > 0,
        s1.map_values(|x: Seq<char>| similarity_key(x)).to_set() == s2.map_values(|x: Seq<char>| similarity_key(x)).to_set(),
    ensures
        similar(name_keys(n1), name_keys(n2)),
{
    assert(name_keys(n1).1 == s1.map_values(|x: Seq<char>| similarity_key(x)));
    assert(name_keys(n2).1 == s2.map_values(|x: Seq<char>| similarity_key(x)));
}

/// Every name is similar to itself: its key list is never empty.
pub proof fn lemma_similar_reflexive(name: Seq<char>)
    ensures
        similar(name_keys(name), name_keys(name)),
{
    assert(name_keys(name).2.len() > 0);
}

/// Whether every string of `a` occurs in `b`.
fn all_contained(a: &Vec<String>, b: &Vec<String>) -> (r: bool)
    ensures
        r == (forall|x: Seq<char>| views(a@).contains(x) ==> views(b@).contains(x)),
{
    let mut i: usize = 0;
    while i < a.len()
        invariant
            i <= a.len(),
            forall|j: int| 0 <= j < i ==> views(b@).contains(#[trigger] views(a@)[j]),
        decreases a.len() - i,
    {
        if !contains_str(b, a[i].as_str()) {
            assert(views(a@).contains(views(a@)[i as int]));
            return false;
        }
        i = i + 1;
    }
    assert forall|x: Seq<char>| views(a@).contains(x) implies views(b@).contains(x) by {
        let j = choose|j: int| 0 <= j < views(a@).len() && views(a@)[j] == x;
    }
    true
}

/// Whether the strings of `a` and of `b` form the same set.
fn same_set(a: &Vec<String>, b: &Vec<String>) -> (r: bool)
    ensures
        r == (views(a@).to_set() == views(b@).to_set()),
{
    let ab = all_contained(a, b);
    let ba = all_contained(b, a);
    if ab && ba {
        assert(views(a@).to_set() =~= views(b@).to_set());
        true
    } else {
        proof {
            if views(a@).to_set() == views(b@).to_set() {
            if !ab {
                assert forall|x: Seq<char>| views(a@).contains(x) implies views(b@).contains(x) by {
                    assert(views(a@).to_set().contains(x));
                }
            } else {
                assert forall|x: Seq<char>| views(b@).contains(x) implies views(a@).contains(x) by {
                    assert(views(b@).to_set().contains(x));
                }
            }
            }
        }
        false
    }
}

/// The keys of a name as strings: main key, sub keys, all keys.
pub open spec fn keys_view(k: (String, Vec<String>, Vec<String>)) -> (Seq<char>, Seq<Seq<char>>, Seq<Seq<char>>) {
    (k.0@, views(k.1@), views(k.2@))
}

/// Computes the keys a name is compared by.
pub fn analyze_name(name: &str) -> (r: (String, Vec<String>, Vec<String>))
    ensures
        keys_view(r) == name_keys(name@),
{
    let mut all_keys: Vec<String> = Vec::new();
    let mut sub_keys: Vec<String> = Vec::new();
    match parse_main_sub(name) {
        Some((main_part, subs)) => {
            let main_key = normalize_for_similarity(main_part.as_str());
            all_keys.push(main_key.clone());
            for i in 0..subs.len()
                invariant
                    views(sub_keys@) == views(subs@).take(i as int).map_values(
                        |s: Seq<char>| similarity_key(s),
                    ),
                    views(all_keys@) == seq![main_key@] + views(sub_keys@),
            {
                let sk = normalize_for_similarity(subs[i].as_str());
                let ghost before = views(sub_keys@);
                let ghost before_all = views(all_keys@);
                sub_keys.push(sk.clone());
                all_keys.push(sk);
                assert(views(sub_keys@) =~= before.push(similarity_key(views(subs@)[i as int])));
                assert(views(all_keys@) =~= before_all.push(similarity_key(views(subs@)[i as int])));
                assert(views(subs@).take(i + 1) =~= views(subs@).take(i as int).push(views(subs@)[i as int]));
                assert(views(subs@).take(i + 1).map_values(|s: Seq<char>| similarity_key(s))
                    =~= views(subs@).take(i as int).map_values(|s: Seq<char>| similarity_key(s)).push(
                    similarity_key(views(subs@)[i as int]),
                ));
            }
            assert(views(subs@).take(subs@.len() as int) == views(subs@));
            (main_key, sub_keys, all_keys)
        },
        None => {
            let main_key = normalize_for_similarity(name);
            all_keys.push(main_key.clone());
            assert(views(all_keys@) =~= seq![main_key@]);
            assert(views(sub_keys@) =~= Seq::<Seq<char>>::empty());
            (main_key, sub_keys, all_keys)
        },
    }
}

/// Whether two names, given by their keys, are similar. The rule is
/// symmetric (`lemma_similar_symmetric`), and a name's keys from
/// `analyze_name` are similar to themselves (`lemma_similar_reflexive`).
pub fn are_similar(
    a: &(String, Vec<String>, Vec<String>),
    b: &(String, Vec<String>, Vec<String>),
) -> (r: bool)
    ensures
        r == similar(keys_view(*a), keys_view(*b)),
        a.0@.len() > 0 && a.0@ == b.0@ ==> r,
        a.1.len() > 0 && b.1.len() > 0 && views(a.1@).to_set() == views(b.1@).to_set() ==> r,
        a.2.len() > 0 && views(a.2@).to_set() == views(b.2@).to_set() ==> r,
        a.1.len() == 0 && views(b.1@).contains(a.0@) ==> r,
        b.1.len() == 0 && views(a.1@).contains(b.0@) ==> r,
{
    if a.0.as_str().unicode_len() > 0 && str_equal(a.0.as_str(), b.0.as_str()) {
        return true;
    }
    if a.1.len() > 0 && b.1.len() > 0 && same_set(&a.1, &b.1) {
        return true;
    }
    if a.2.len() > 0 && same_set(&a.2, &b.2) {
        return true;
    }
    if a.1.len() == 0 && contains_str(&b.1, a.0.as_str()) {
        return true;
    }
    if b.1.len() == 0 && contains_str(&a.1, b.0.as_str()) {
        return true;
    }
    false
}

/// The first folder, in dictionary order, whose name is similar to the keys `t`.
pub open spec fn first_similar_folder(
    t: (Seq<char>, Seq<Seq<char>>, Seq<Seq<char>>),
    s: Seq<EntryView>,
) -> Option<Seq<char>>
    decreases s.len(),
{
    if s.len() == 0 {
        None
    } else if similar(t, name_keys(s[0].1)) {
        Some(s[0].1)
    } else {
        first_similar_folder(t, s.drop_first())
    }
}

/// The folder of the first key, in dictionary order, whose similarity key is `k`.
pub open spec fn first_with_similarity_key(k: Seq<char>, s: Seq<EntryView>) -> Option<Seq<char>>
    decreases s.len(),
{
    if s.len() == 0 {
        None
    } else if similarity_key(s[0].0) == k {
        Some(s[0].1)
    } else {
        first_with_similarity_key(k, s.drop_first())
    }
}

/// The folder a key falls back to when it is not in the dictionary: none for
/// a key whose similarity key is empty; else the first folder whose name is
/// similar to the key; else the folder of the first dictionary key with the
/// same similarity key.
pub open spec fn similar_match(key: Seq<char>, s: Seq<EntryView>) -> Option<Seq<char>> {
    if similarity_key(key).len() == 0 {
        None
    } else {
        match first_similar_folder(name_keys(key), s) {
            Some(f) => Some(f),
            None => first_with_similarity_key(similarity_key(key), s),
        }
    }
}

/// A folder found by similarity is a folder of the dictionary.
pub proof fn lemma_similar_match_is_dictionary_folder(key: Seq<char>, s: Seq<EntryView>)
    ensures
        similar_match(key, s) matches Some(f) ==> exists|i: int| 0 <= i < s.len() && (#[trigger] s[i]).1 == f,
{
    lemma_first_similar_folder_in(name_keys(key), s);
    lemma_first_with_similarity_key_in(similarity_key(key), s);
}

/// A folder found by `first_similar_folder` is a folder of the entries.
proof fn lemma_first_similar_folder_in(t: (Seq<char>, Seq<Seq<char>>, Seq<Seq<char>>), s: Seq<EntryView>)
    ensures
        first_similar_folder(t, s) matches Some(f) ==> exists|i: int| 0 <= i < s.len() && (#[trigger] s[i]).1 == f,
    decreases s.len(),
{
    if s.len() > 0 && !similar(t, name_keys(s[0].1)) {
        lemma_first_similar_folder_in(t, s.drop_first());
        if let Some(f) = first_similar_folder(t, s) {
            let i = choose|i: int| 0 <= i < s.drop_first().len() && (#[trigger] s.drop_first()[i]).1 == f;
            assert(s[i + 1].1 == f);
        }
    } else if s.len() > 0 {
        assert(first_similar_folder(t, s) == Some(s[0].1));
    }
}

/// A folder found by `first_with_similarity_key` is a folder of the entries.
proof fn lemma_first_with_similarity_key_in(k: Seq<char>, s: Seq<EntryView>)
    ensures
        first_with_similarity_key(k, s) matches Some(f) ==> exists|i: int| 0 <= i < s.len() && (#[trigger] s[i]).1 == f,
    decreases s.len(),
{
    if s.len() > 0 && similarity_key(s[0].0) != k {
        lemma_first_with_similarity_key_in(k, s.drop_first());
        if let Some(f) = first_with_similarity_key(k, s) {
            let i = choose|i: int| 0 <= i < s.drop_first().len() && (#[trigger] s.drop_first()[i]).1 == f;
            assert(s[i + 1].1 == f);
        }
    } else if s.len() > 0 {
        assert(first_with_similarity_key(k, s) == Some(s[0].1));
    }
}

/// The first folder similar to `t` exists exactly when some folder is
/// similar, and it is one of those folders.
proof fn lemma_first_similar_folder_found(t: (Seq<char>, Seq<Seq<char>>, Seq<Seq<char>>), s: Seq<EntryView>)
    ensures
        (exists|i: int| 0 <= i < s.len() && similar(t, name_keys(#[trigger] s[i].1))) ==> first_similar_folder(t, s) is Some,
        first_similar_folder(t, s) matches Some(f) ==> exists|i: int| 0 <= i < s.len() && #[trigger] s[i].1 == f
            && similar(t, name_keys(f)),
    decreases s.len(),
{
    if s.len() > 0 {
        lemma_first_similar_folder_found(t, s.drop_first());
        if exists|i: int| 0 <= i < s.len() && similar(t, name_keys(#[trigger] s[i].1)) {
            let i = choose|i: int| 0 <= i < s.len() && similar(t, name_keys(#[trigger] s[i].1));
            if i > 0 {
                assert(s.drop_first()[i - 1] == s[i]);
            }
        }
        if !similar(t, name_keys(s[0].1)) {
            if let Some(f) = first_similar_folder(t, s) {
                let i = choose|i: int| 0 <= i < s.drop_first().len() && #[trigger] s.drop_first()[i].1 == f
                    && similar(t, name_keys(f));
                assert(s[i + 1] == s.drop_first()[i]);
            }
        }
    }
}

/// The first folder whose key has similarity key `k` exists exactly when
/// some key has it, and it is the folder of such a key.
proof fn lemma_first_with_similarity_key_found(k: Seq<char>, s: Seq<EntryView>)
    ensures
        (exists|i: int| 0 <= i < s.len() && similarity_key(#[trigger] s[i].0) == k) ==> first_with_similarity_key(k, s) is Some,
        first_with_similarity_key(k, s) matches Some(f) ==> exists|i: int| 0 <= i < s.len() && #[trigger] s[i].1 == f
            && similarity_key(s[i].0) == k,
    decreases s.len(),
{
    if s.len() > 0 {
        lemma_first_with_similarity_key_found(k, s.drop_first());
        if exists|i: int| 0 <= i < s.len() && similarity_key(#[trigger] s[i].0) == k {
            let i = choose|i: int| 0 <= i < s.len() && similarity_key(#[trigger] s[i].0) == k;
            if i > 0 {
                assert(s.drop_first()[i - 1] == s[i]);
            }
        }
        if similarity_key(s[0].0) != k {
            if let Some(f) = first_with_similarity_key(k, s) {
                let i = choose|i: int| 0 <= i < s.drop_first().len() && #[trigger] s.drop_first()[i].1 == f
                    && similarity_key(s.drop_first()[i].0) == k;
                assert(s[i + 1] == s.drop_first()[i]);
            }
        }
    }
}

/// What the fallback lookup by similarity gives: nothing for a key whose
/// similarity key is empty; otherwise a folder whenever some folder name is
/// similar to the key or some dictionary key has the same similarity key,
/// and any folder it gives is a dictionary folder that is similar to the
/// key or whose key has the key's similarity key.
pub proof fn lemma_similar_match_found(key: Seq<char>, s: Seq<EntryView>)
    ensures
        similarity_key(key).len() == 0 ==> similar_match(key, s) is None,
        similarity_key(key).len() > 0 && (exists|i: int| 0 <= i < s.len() && similar(name_keys(key), name_keys(#[trigger] s[i].1)))
            ==> similar_match(key, s) is Some,
        similarity_key(key).len() > 0 && (exists|i: int| 0 <= i < s.len() && similarity_key(#[trigger] s[i].0) == similarity_key(key))
            ==> similar_match(key, s) is Some,
        similar_match(key, s) matches Some(f) ==> exists|i: int| 0 <= i < s.len() && #[trigger] s[i].1 == f && (similar(
            name_keys(key),
            name_keys(f),
        ) || similarity_key(s[i].0) == similarity_key(key)),
{
    lemma_first_similar_folder_found(name_keys(key), s);
    lemma_first_with_similarity_key_found(similarity_key(key), s);
}

/// Looks a key up by similarity: the first folder of the dictionary whose
/// name is similar to the key, else the folder of the first key with the
/// same similarity key.
pub fn find_similar_dict_match(normalized_key: &str, dict: &Dictionary) -> (r: Option<String>)
    requires
        dict.wf(),
    ensures
        r matches Some(f) ==> similar_match(normalized_key@, dict@) == Some(f@),
        r is None ==> similar_match(normalized_key@, dict@) is None,
        similarity_key(normalized_key@).len() == 0 ==> r is None,
        similarity_key(normalized_key@).len() > 0 && (exists|i: int| 0 <= i < dict@.len() && similar(
            name_keys(normalized_key@),
            name_keys(#[trigger] dict@[i].1),
        )) ==> r is Some,
        r matches Some(f) ==> exists|i: int| 0 <= i < dict@.len() && #[trigger] dict@[i].1 == f@ && (similar(
            name_keys(normalized_key@),
            name_keys(f@),
        ) || similarity_key(dict@[i].0) == similarity_key(normalized_key@)),
{
    proof {
        lemma_similar_match_found(normalized_key@, dict@);
    }
    let sim_key = normalize_for_similarity(normalized_key);
    if sim_key.as_str().unicode_len() == 0 {
        return None;
    }
    let tag = analyze_name(normalized_key);
    let n = dict.len();
    let mut i: usize = 0;
    assert(dict@.skip(0) == dict@);
    while i < n
        invariant
            dict.wf(),
            n == dict@.len(),
            i <= n,
            keys_view(tag) == name_keys(normalized_key@),
            sim_key@ == similarity_key(normalized_key@),
            sim_key@.len() > 0,
            first_similar_folder(name_keys(normalized_key@), dict@) == first_similar_folder(
                name_keys(normalized_key@),
                dict@.skip(i as int),
            ),
        decreases n - i,
    {
        let folder = dict.folder_at(i);
        let fld = analyze_name(folder.as_str());
        assert(dict@.skip(i as int)[0] == dict@[i as int]);
        assert(dict@.skip(i as int).drop_first() == dict@.skip(i + 1));
        if are_similar(&tag, &fld) {
            let found = folder.clone();
            assert(first_similar_folder(name_keys(normalized_key@), dict@.skip(i as int)) == Some(found@));
            return Some(found);
        }
        i = i + 1;
    }
    assert(dict@.skip(n as int) =~= Seq::<EntryView>::empty());
    let mut j: usize = 0;
    while j < n
        invariant
            dict.wf(),
            n == dict@.len(),
            j <= n,
            sim_key@ == similarity_key(normalized_key@),
            sim_key@.len() > 0,
            first_similar_folder(name_keys(normalized_key@), dict@) is None,
            first_with_similarity_key(sim_key@, dict@) == first_with_similarity_key(
                sim_key@,
                dict@.skip(j as int),
            ),
        decreases n - j,
    {
        let key = dict.key_at(j);
        let dict_sim = normalize_for_similarity(key.as_str());
        assert(dict@.skip(j as int)[0] == dict@[j as int]);
        assert(dict@.skip(j as int).drop_first() == dict@.skip(j + 1));
        if str_equal(dict_sim.as_str(), sim_key.as_str()) {
            let found = dict.folder_at(j).clone();
            assert(first_with_similarity_key(sim_key@, dict@.skip(j as int)) == Some(found@));
            assert(first_similar_folder(name_keys(normalized_key@), dict@) is None);
            return Some(found);
        }
        j = j + 1;
    }
    assert(dict@.skip(n as int) =~= Seq::<EntryView>::empty());
    None
}

/// Whether candidates `i` and `j` are linked: two different candidates, at
/// least one of them a is_real folder, with similar names.
pub open spec fn adjacent(names: Seq<Seq<char>>, is_real: Seq<bool>, i: usize, j: usize) -> bool {
    &&& i < names.len()
    &&& j < names.len()
    &&& i != j
    &&& is_real[i as int] || is_real[j as int]
    &&& similar(name_keys(names[i as int]), name_keys(names[j as int]))
}

/// Whether candidate `v` is linked to some other candidate.
pub open spec fn has_neighbor(names: Seq<Seq<char>>, is_real: Seq<bool>, v: usize) -> bool {
    exists|w: usize| #[trigger] adjacent(names, is_real, v, w)
}

/// Whether `v` belongs to one of the clusters.
pub open spec fn clustered(cl: Seq<Seq<usize>>, v: usize) -> bool {
    exists|g: int| 0 <= g < cl.len() && #[trigger] cl[g].contains(v)
}

/// The shape the clusters of linked candidates have: each has at least two
/// members, none twice, all of them candidates, no candidate in two
/// clusters; a cluster holds every candidate linked to one of its members;
/// each member after the first is linked to an earlier member; each cluster
/// starts with its smallest candidate, and the clusters are ordered by that
/// candidate.
pub open spec fn cluster_shape(names: Seq<Seq<char>>, is_real: Seq<bool>, cl: Seq<Seq<usize>>) -> bool {
    &&& forall|g: int| 0 <= g < cl.len() ==> (#[trigger] cl[g]).len() >= 2 && cl[g].no_duplicates()
    &&& forall|g: int, v: usize| 0 <= g < cl.len() && #[trigger] cl[g].contains(v) ==> v < names.len()
    &&& forall|g1: int, g2: int, v: usize|
        0 <= g1 < cl.len() && 0 <= g2 < cl.len() && g1 != g2 && #[trigger] cl[g1].contains(v)
            ==> !#[trigger] cl[g2].contains(v)
    &&& forall|g: int, v: usize, w: usize|
        0 <= g < cl.len() && #[trigger] cl[g].contains(v) && #[trigger] adjacent(names, is_real, v, w)
            ==> cl[g].contains(w)
    &&& forall|g: int, m: int|
        0 <= g < cl.len() && 0 < m < cl[g].len() ==> #[trigger] linked_to_earlier(names, is_real, cl[g], m)
    &&& forall|g: int, m: int| 0 <= g < cl.len() && 0 <= m < cl[g].len() ==> cl[g][0] <= #[trigger] cl[g][m]
    &&& forall|g1: int, g2: int| 0 <= g1 < g2 < cl.len() ==> #[trigger] cl[g1][0] < #[trigger] cl[g2][0]
}

/// The member at `m` is linked to a member before it.
pub open spec fn linked_to_earlier(names: Seq<Seq<char>>, is_real: Seq<bool>, c: Seq<usize>, m: int) -> bool {
    exists|m2: int| 0 <= m2 < m && #[trigger] adjacent(names, is_real, c[m2], c[m])
}

/// The clusters are exactly the groups of linked candidates: they have the
/// shape above and hold exactly the candidates that have a link.
pub open spec fn is_similarity_clustering(names: Seq<Seq<char>>, is_real: Seq<bool>, cl: Seq<Seq<usize>>) -> bool {
    &&& cluster_shape(names, is_real, cl)
    &&& forall|v: usize| v < names.len() ==> (has_neighbor(names, is_real, v) <==> clustered(cl, v))
}

/// In a clustering of linked candidates, two different candidates with
/// similar names, at least one a real folder, stand in the same group.
pub proof fn lemma_similar_candidates_grouped(
    names: Seq<Seq<char>>,
    is_real: Seq<bool>,
    cl: Seq<Seq<usize>>,
    i: usize,
    j: usize,
)
    requires
        is_similarity_clustering(names, is_real, cl),
        i < names.len(),
        j < names.len(),
        i != j,
        is_real[i as int] || is_real[j as int],
        similar(name_keys(names[i as int]), name_keys(names[j as int])),
    ensures
        exists|g: int| 0 <= g < cl.len() && #[trigger] cl[g].contains(i) && cl[g].contains(j),
{
    assert(adjacent(names, is_real, i, j));
    assert(has_neighbor(names, is_real, i));
    assert(clustered(cl, i));
    let g = choose|g: int| 0 <= g < cl.len() && #[trigger] cl[g].contains(i);
    assert(cl[g].contains(j));
}

/// Links go both ways, and both ends of a link have a neighbour.
pub proof fn lemma_adjacent_symmetric(names: Seq<Seq<char>>, is_real: Seq<bool>, i: usize, j: usize)
    requires
        adjacent(names, is_real, i, j),
    ensures
        adjacent(names, is_real, j, i),
        has_neighbor(names, is_real, i),
        has_neighbor(names, is_real, j),
{
    lemma_similar_symmetric(name_keys(names[i as int]), name_keys(names[j as int]));
    assert(adjacent(names, is_real, i, j));
    assert(adjacent(names, is_real, j, i));
}

/// The number of `false` entries.
pub open spec fn count_unvisited(v: Seq<bool>) -> nat
    decreases v.len(),
{
    if v.len() == 0 {
        0
    } else {
        count_unvisited(v.drop_last()) + if v.last() { 0nat } else { 1nat }
    }
}

/// Marking an unvisited candidate lowers the count of unvisited ones by one.
pub proof fn lemma_count_unvisited_mark(v: Seq<bool>, i: int)
    requires
        0 <= i < v.len(),
        !v[i],
    ensures
        count_unvisited(v.update(i, true)) + 1 == count_unvisited(v),
    decreases v.len(),
{
    if i == v.len() - 1 {
        assert(v.update(i, true).drop_last() == v.drop_last());
    } else {
        assert(v.update(i, true).drop_last() == v.drop_last().update(i, true));
        lemma_count_unvisited_mark(v.drop_last(), i);
    }
}

/// The views of a sequence of index vectors.
pub open spec fn cluster_views(cl: Seq<Vec<usize>>) -> Seq<Seq<usize>> {
    cl.map_values(|c: Vec<usize>| c@)
}

/// For every candidate, the candidates it is linked to.
fn neighbor_lists(keys: &Vec<(String, Vec<String>, Vec<String>)>, is_real: &Vec<bool>, names: Ghost<Seq<Seq<char>>>) -> (adj: Vec<Vec<usize>>)
    requires
        keys.len() == is_real.len(),
        names@.len() == keys.len(),
        forall|i: int| 0 <= i < keys.len() ==> keys_view(#[trigger] keys@[i]) == name_keys(names@[i]),
    ensures
        adj.len() == keys.len(),
        forall|i: int, w: usize| 0 <= i < adj.len() ==> (#[trigger] adj@[i]@.contains(w) <==> adjacent(names@, is_real@, i as usize, w)),
{
    let n = keys.len();
    let mut adj: Vec<Vec<usize>> = Vec::new();
    for i in 0..n
        invariant
            n == keys.len(),
            n == is_real.len(),
            names@.len() == n,
            forall|i: int| 0 <= i < keys.len() ==> keys_view(#[trigger] keys@[i]) == name_keys(names@[i]),
            adj.len() == i,
            forall|i2: int, w: usize| 0 <= i2 < adj.len() ==> (#[trigger] adj@[i2]@.contains(w) <==> adjacent(names@, is_real@, i2 as usize, w)),
    {
        let mut row: Vec<usize> = Vec::new();
        for j in 0..n
            invariant
                n == keys.len(),
                n == is_real.len(),
                names@.len() == n,
                0 <= i < n,
                forall|i: int| 0 <= i < keys.len() ==> keys_view(#[trigger] keys@[i]) == name_keys(names@[i]),
                forall|w: usize| (#[trigger] row@.contains(w) <==> (w < j && adjacent(names@, is_real@, i, w))),
        {
            let ghost old_row = row@;
            let linked = j != i && (is_real[i] || is_real[j]) && are_similar(&keys[i], &keys[j]);
            assert(keys_view(keys@[i as int]) == name_keys(names@[i as int]));
            assert(keys_view(keys@[j as int]) == name_keys(names@[j as int]));
            assert(linked == adjacent(names@, is_real@, i, j));
            if linked {
                row.push(j);
            }
            assert forall|w: usize| (#[trigger] row@.contains(w) <==> (w < j + 1 && adjacent(names@, is_real@, i, w))) by {
                if linked {
                    assert(row@ == old_row.push(j));
                    if row@.contains(w) && w != j {
                        let k = choose|k: int| 0 <= k < row@.len() && row@[k] == w;
                        assert(old_row[k] == w);
                    }
                    if old_row.contains(w) {
                        let k = choose|k: int| 0 <= k < old_row.len() && old_row[k] == w;
                        assert(row@[k] == w);
                    }
                    assert(row@[old_row.len() as int] == j);
                } else {
                    assert(row@ == old_row);
                }
            }
        }
        adj.push(row);
    }
    adj
}

/// Groups the linked candidates by breadth-first search from each candidate
/// in turn.
fn similarity_clusters(adj: &Vec<Vec<usize>>, is_real: &Vec<bool>, names: Ghost<Seq<Seq<char>>>) -> (cl: Vec<Vec<usize>>)
    requires
        adj.len() == is_real.len(),
        names@.len() == adj.len(),
        forall|i: int, w: usize| 0 <= i < adj.len() ==> (#[trigger] adj@[i]@.contains(w) <==> adjacent(names@, is_real@, i as usize, w)),
    ensures
        is_similarity_clustering(names@, is_real@, cluster_views(cl@)),
{
    let n = adj.len();
    let mut visited: Vec<bool> = Vec::new();
    for i in 0..n
        invariant
            visited.len() == i,
            forall|j: int| 0 <= j < i ==> !visited@[j],
    {
        visited.push(false);
    }
    let mut clusters: Vec<Vec<usize>> = Vec::new();
    assert(cluster_views(clusters@) =~= Seq::<Seq<usize>>::empty());
    for start in 0..n
        invariant
            n == adj.len(),
            n == is_real.len(),
            n == names@.len(),
            forall|i: int, w: usize| 0 <= i < adj.len() ==> (#[trigger] adj@[i]@.contains(w) <==> adjacent(names@, is_real@, i as usize, w)),
            visited.len() == n,
            cluster_shape(names@, is_real@, cluster_views(clusters@)),
            forall|g: int| 0 <= g < clusters.len() ==> #[trigger] cluster_views(clusters@)[g][0] < start,
            forall|v: usize| v < n ==> (#[trigger] visited@[v as int] <==> clustered(cluster_views(clusters@), v)),
            forall|v: usize| v < n && #[trigger] visited@[v as int] ==> has_neighbor(names@, is_real@, v),
            forall|v: usize| v < start && has_neighbor(names@, is_real@, v) ==> #[trigger] visited@[v as int],
    {
        let ghost cl = cluster_views(clusters@);
        if visited[start] || adj[start].len() == 0 {
            proof {
                if has_neighbor(names@, is_real@, start) && !visited@[start as int] {
                    let w = choose|w: usize| #[trigger] adjacent(names@, is_real@, start, w);
                    assert(adj@[start as int]@.contains(w));
                }
            }
        } else {
            proof {
                assert(adj@[start as int]@.contains(adj@[start as int]@[0]));
                lemma_adjacent_symmetric(names@, is_real@, start, adj@[start as int]@[0]);
            }
            let mut order: Vec<usize> = Vec::new();
            order.push(start);
            visited.set(start, true);
            let ghost mut parent: Seq<int> = seq![0];
            let mut head: usize = 0;
            assert(order@.contains(start)) by { assert(order@[0] == start); }
            while head < order.len()
                invariant
                    n == adj.len(),
                    n == is_real.len(),
                    n == names@.len(),
                    start < n,
                    forall|i: int, w: usize| 0 <= i < adj.len() ==> (#[trigger] adj@[i]@.contains(w) <==> adjacent(names@, is_real@, i as usize, w)),
                    visited.len() == n,
                    cl == cluster_views(clusters@),
                    cluster_shape(names@, is_real@, cl),
                    forall|g: int| 0 <= g < cl.len() ==> #[trigger] cl[g][0] < start,
                    forall|v: usize| v < n && #[trigger] visited@[v as int] ==> has_neighbor(names@, is_real@, v),
                    forall|v: usize| v < start && has_neighbor(names@, is_real@, v) ==> #[trigger] visited@[v as int],
                    has_neighbor(names@, is_real@, start),
                    order.len() >= 1,
                    order@[0] == start,
                    order@.no_duplicates(),
                    forall|m: int| 0 <= m < order.len() ==> start <= #[trigger] order@[m] < n,
                    forall|v: usize| v < n ==> (#[trigger] visited@[v as int] <==> (clustered(cl, v) || order@.contains(v))),
                    forall|v: usize| #[trigger] order@.contains(v) ==> !clustered(cl, v),
                    parent.len() == order.len(),
                    forall|m: int| 0 < m < order.len() ==> 0 <= #[trigger] parent[m] < m
                        && adjacent(names@, is_real@, order@[parent[m]], order@[m]),
                    head <= order.len(),
                    forall|m: int, w: usize| 0 <= m < head && #[trigger] adjacent(names@, is_real@, order@[m], w) ==> order@.contains(w),
                decreases count_unvisited(visited@) + order.len() - head,
            {
                let cur = order[head];
                let row_len = adj[cur].len();
                let ghost budget = count_unvisited(visited@) + order.len();
                for k in 0..row_len
                    invariant
                        n == adj.len(),
                        n == is_real.len(),
                        n == names@.len(),
                        start < n,
                        forall|i: int, w: usize| 0 <= i < adj.len() ==> (#[trigger] adj@[i]@.contains(w) <==> adjacent(names@, is_real@, i as usize, w)),
                        visited.len() == n,
                        cl == cluster_views(clusters@),
                        cluster_shape(names@, is_real@, cl),
                        forall|g: int| 0 <= g < cl.len() ==> #[trigger] cl[g][0] < start,
                        forall|v: usize| v < n && #[trigger] visited@[v as int] ==> has_neighbor(names@, is_real@, v),
                        forall|v: usize| v < start && has_neighbor(names@, is_real@, v) ==> #[trigger] visited@[v as int],
                        has_neighbor(names@, is_real@, start),
                        order.len() >= 1,
                        order@[0] == start,
                        order@.no_duplicates(),
                        forall|m: int| 0 <= m < order.len() ==> start <= #[trigger] order@[m] < n,
                        forall|v: usize| v < n ==> (#[trigger] visited@[v as int] <==> (clustered(cl, v) || order@.contains(v))),
                        forall|v: usize| #[trigger] order@.contains(v) ==> !clustered(cl, v),
                        parent.len() == order.len(),
                        forall|m: int| 0 < m < order.len() ==> 0 <= #[trigger] parent[m] < m
                            && adjacent(names@, is_real@, order@[parent[m]], order@[m]),
                        head < order.len(),
                        cur == order@[head as int],
                        row_len == adj@[cur as int].len(),
                        forall|m: int, w: usize| 0 <= m < head && #[trigger] adjacent(names@, is_real@, order@[m], w) ==> order@.contains(w),
                        forall|k2: int| 0 <= k2 < k ==> order@.contains(#[trigger] adj@[cur as int]@[k2]),
                        count_unvisited(visited@) + order.len() == budget,
                {
                    let nb = adj[cur][k];
                    proof {
                        assert(adj@[cur as int]@.contains(nb));
                        lemma_adjacent_symmetric(names@, is_real@, cur, nb);
                    }
                    if !visited[nb] {
                        let ghost old_order = order@;
                        let ghost old_visited = visited@;
                        proof {
                            lemma_count_unvisited_mark(visited@, nb as int);
                            if nb < start {
                                assert(visited@[nb as int]);
                            }
                            assert(!clustered(cl, nb));
                        }
                        visited.set(nb, true);
                        order.push(nb);
                        proof {
                            parent = parent.push(head as int);
                            assert(order@[order.len() - 1] == nb);
                            assert(order@.contains(nb));
                            assert forall|v: usize| #[trigger] order@.contains(v) implies !clustered(cl, v) by {
                                if v != nb {
                                    let m = choose|m: int| 0 <= m < order@.len() && order@[m] == v;
                                    assert(old_order[m] == v);
                                    assert(old_order.contains(v));
                                }
                            }
                            assert forall|v: usize| v < n implies (#[trigger] visited@[v as int] <==> (clustered(cl, v) || order@.contains(v))) by {
                                if v != nb && order@.contains(v) {
                                    let m = choose|m: int| 0 <= m < order@.len() && order@[m] == v;
                                    assert(old_order[m] == v);
                                }
                                if old_order.contains(v) {
                                    let m = choose|m: int| 0 <= m < old_order.len() && old_order[m] == v;
                                    assert(order@[m] == v);
                                }
                            }
                            assert forall|m: int, w: usize| 0 <= m < head && #[trigger] adjacent(names@, is_real@, order@[m], w) implies order@.contains(w) by {
                                assert(order@[m] == old_order[m]);
                                assert(old_order.contains(w));
                                let m2 = choose|m2: int| 0 <= m2 < old_order.len() && old_order[m2] == w;
                                assert(order@[m2] == w);
                            }
                            assert forall|k2: int| 0 <= k2 < k + 1 implies order@.contains(#[trigger] adj@[cur as int]@[k2]) by {
                                if k2 < k {
                                    let w = adj@[cur as int]@[k2];
                                    assert(old_order.contains(w));
                                    let m2 = choose|m2: int| 0 <= m2 < old_order.len() && old_order[m2] == w;
                                    assert(order@[m2] == w);
                                }
                            }
                            assert forall|m: int| 0 < m < order.len() implies 0 <= #[trigger] parent[m] < m
                                && adjacent(names@, is_real@, order@[parent[m]], order@[m]) by {
                                if m < old_order.len() {
                                    assert(order@[m] == old_order[m]);
                                    assert(order@[parent[m]] == old_order[parent[m]]);
                                }
                            }
                        }
                    } else {
                        proof {
                            if !order@.contains(nb) {
                                assert(clustered(cl, nb));
                                let g = choose|g: int| 0 <= g < cl.len() && #[trigger] cl[g].contains(nb);
                                assert(cl[g].contains(cur));
                                assert(order@.contains(cur)) by { assert(order@[head as int] == cur); }
                            }
                        }
                    }
                }
                proof {
                    assert forall|m: int, w: usize| 0 <= m < head + 1 && #[trigger] adjacent(names@, is_real@, order@[m], w) implies order@.contains(w) by {
                        if m == head {
                            assert(adj@[cur as int]@.contains(w));
                            let k2 = choose|k2: int| 0 <= k2 < adj@[cur as int]@.len() && adj@[cur as int]@[k2] == w;
                        }
                    }
                }
                head = head + 1;
            }
            let ghost ord = order@;
            proof {
                let w = choose|w: usize| #[trigger] adjacent(names@, is_real@, start, w);
                assert(ord.contains(w));
                assert(ord.len() >= 2);
            }
            clusters.push(order);
            proof {
                let ncl = cluster_views(clusters@);
                assert(ncl =~= cl.push(ord));
                assert forall|v: usize| #[trigger] clustered(ncl, v) <==> (clustered(cl, v) || ord.contains(v)) by {
                    if clustered(cl, v) {
                        let g = choose|g: int| 0 <= g < cl.len() && #[trigger] cl[g].contains(v);
                        assert(ncl[g] == cl[g]);
                    }
                    if ord.contains(v) {
                        assert(ncl[cl.len() as int] == ord);
                    }
                    if clustered(ncl, v) {
                        let g = choose|g: int| 0 <= g < ncl.len() && #[trigger] ncl[g].contains(v);
                        if g < cl.len() {
                            assert(cl[g] == ncl[g]);
                        }
                    }
                }
                assert forall|g: int, m: int|
                    0 <= g < ncl.len() && 0 < m < ncl[g].len() implies #[trigger] linked_to_earlier(names@, is_real@, ncl[g], m) by {
                    if g == cl.len() {
                        assert(ncl[g] == ord);
                        assert(ord == order@);
                        let p = parent[m];
                        assert(0 <= p < m);
                        assert(adjacent(names@, is_real@, ord[p], ord[m]));
                        assert(adjacent(names@, is_real@, ncl[g][p], ncl[g][m]));
                    } else {
                        assert(ncl[g] == cl[g]);
                        assert(linked_to_earlier(names@, is_real@, cl[g], m));
                    }
                }
                assert forall|g: int, v: usize, w: usize|
                    0 <= g < ncl.len() && #[trigger] ncl[g].contains(v) && #[trigger] adjacent(names@, is_real@, v, w)
                        implies ncl[g].contains(w) by {
                    if g == cl.len() {
                        let m = choose|m: int| 0 <= m < ord.len() && ord[m] == v;
                        assert(adjacent(names@, is_real@, ord[m], w));
                    } else {
                        assert(ncl[g] == cl[g]);
                    }
                }
                assert forall|g1: int, g2: int, v: usize|
                    0 <= g1 < ncl.len() && 0 <= g2 < ncl.len() && g1 != g2 && #[trigger] ncl[g1].contains(v)
                        implies !#[trigger] ncl[g2].contains(v) by {
                    if g1 == cl.len() {
                        assert(ncl[g2] == cl[g2]);
                        assert(!clustered(cl, v));
                    } else if g2 == cl.len() {
                        assert(ncl[g1] == cl[g1]);
                        if ord.contains(v) {
                            assert(!clustered(cl, v));
                        }
                    } else {
                        assert(ncl[g1] == cl[g1]);
                        assert(ncl[g2] == cl[g2]);
                    }
                }
                assert forall|g: int, v: usize| 0 <= g < ncl.len() && #[trigger] ncl[g].contains(v) implies v < names@.len() by {
                    if g == cl.len() {
                        let m = choose|m: int| 0 <= m < ord.len() && ord[m] == v;
                    } else {
                        assert(ncl[g] == cl[g]);
                    }
                }
                assert forall|g: int| 0 <= g < ncl.len() implies (#[trigger] ncl[g]).len() >= 2 && ncl[g].no_duplicates() by {
                    if g < cl.len() {
                        assert(ncl[g] == cl[g]);
                    }
                }
                assert forall|g: int, m: int| 0 <= g < ncl.len() && 0 <= m < ncl[g].len() implies ncl[g][0] <= #[trigger] ncl[g][m] by {
                    if g < cl.len() {
                        assert(ncl[g] == cl[g]);
                    }
                }
                assert forall|g1: int, g2: int| 0 <= g1 < g2 < ncl.len() implies #[trigger] ncl[g1][0] < #[trigger] ncl[g2][0] by {
                    assert(ncl[g1] == cl[g1]);
                    if g2 < cl.len() {
                        assert(ncl[g2] == cl[g2]);
                    }
                }
                assert(cluster_shape(names@, is_real@, ncl));
                assert forall|g: int| 0 <= g < ncl.len() implies #[trigger] ncl[g][0] < start + 1 by {
                    if g < cl.len() {
                        assert(ncl[g] == cl[g]);
                    }
                }
            }
        }
    }
    proof {
        let cl = cluster_views(clusters@);
        assert forall|v: usize| v < names@.len() implies (has_neighbor(names@, is_real@, v) <==> clustered(cl, v)) by {
            assert(visited@[v as int] <==> clustered(cl, v));
        }
    }
    clusters
}

/// The names of `ds` that are not among `real`, in order.
pub open spec fn not_among(ds: Seq<Seq<char>>, reals: Seq<Seq<char>>) -> Seq<Seq<char>>
    decreases ds.len(),
{
    if ds.len() == 0 {
        Seq::empty()
    } else {
        let r = not_among(ds.drop_last(), reals);
        if reals.contains(ds.last()) {
            r
        } else {
            r.push(ds.last())
        }
    }
}

/// `not_among` of a prefix is a prefix of `not_among` of the whole.
pub proof fn lemma_not_among_prefix(ds: Seq<Seq<char>>, reals: Seq<Seq<char>>, j: int)
    requires
        0 <= j <= ds.len(),
    ensures
        not_among(ds.take(j), reals).len() <= not_among(ds, reals).len(),
        not_among(ds, reals).take(not_among(ds.take(j), reals).len() as int) == not_among(ds.take(j), reals),
    decreases ds.len(),
{
    if j == ds.len() {
        assert(ds.take(j) == ds);
    } else {
        assert(ds.drop_last().take(j) == ds.take(j));
        lemma_not_among_prefix(ds.drop_last(), reals, j);
        let a = not_among(ds.take(j), reals);
        let b = not_among(ds.drop_last(), reals);
        assert(b.take(a.len() as int) == a);
        if !reals.contains(ds.last()) {
            assert(b.push(ds.last()).take(a.len() as int) == b.take(a.len() as int));
        }
    }
}

/// The candidates for similar groups, as (name, is a real folder, is a
/// dictionary folder): first every real folder, then every dictionary folder
/// that is not a real folder.
pub open spec fn folder_candidates(reals: Seq<Seq<char>>, s: Seq<EntryView>) -> Seq<(Seq<char>, bool, bool)> {
    reals.map_values(|n: Seq<char>| (n, true, distinct_folders(s).contains(n)))
        + not_among(distinct_folders(s), reals).map_values(|n: Seq<char>| (n, false, true))
}

/// The names of the candidates.
pub open spec fn candidate_names(c: Seq<(Seq<char>, bool, bool)>) -> Seq<Seq<char>> {
    c.map_values(|x: (Seq<char>, bool, bool)| x.0)
}

/// Which candidates are real folders.
pub open spec fn candidate_is_real(c: Seq<(Seq<char>, bool, bool)>) -> Seq<bool> {
    c.map_values(|x: (Seq<char>, bool, bool)| x.1)
}

impl View for SimilarCandidate {
    type V = (Seq<char>, bool, bool);

    open spec fn view(&self) -> (Seq<char>, bool, bool) {
        (self.name@, self.is_real_folder, self.is_dictionary)
    }
}

/// Group `gr` is number `g` and lists the candidates at the indices `members`.
pub open spec fn group_matches(gr: SimilarGroup, g: int, members: Seq<usize>, c: Seq<(Seq<char>, bool, bool)>) -> bool {
    &&& gr.id == g
    &&& gr.candidates@.len() == members.len()
    &&& forall|m: int| 0 <= m < members.len() ==> (#[trigger] gr.candidates@[m])@ == c[members[m] as int]
}

/// The groups list, one for one, the clusters of candidates.
pub open spec fn groups_match(groups: Seq<SimilarGroup>, cl: Seq<Seq<usize>>, c: Seq<(Seq<char>, bool, bool)>) -> bool {
    &&& groups.len() == cl.len()
    &&& forall|g: int| 0 <= g < cl.len() ==> #[trigger] group_matches(groups[g], g, cl[g], c)
}

/// Groups similar folder names: the real folders of the output folder and
/// the folders of the dictionary are linked when their names are similar
/// and at least one of the two is a real folder; each group is a set of
/// names linked to each other, directly or through other names of the group.
pub fn detect_similar_folders(real_folders: &Vec<String>, dict: &Dictionary) -> (groups: Vec<SimilarGroup>)
    requires
        dict.wf(),
    ensures
        exists|cl: Seq<Seq<usize>>|
            #[trigger] is_similarity_clustering(
                candidate_names(folder_candidates(views(real_folders@), dict@)),
                candidate_is_real(folder_candidates(views(real_folders@), dict@)),
                cl,
            ) && groups_match(groups@, cl, folder_candidates(views(real_folders@), dict@)),
{
    let ghost c = folder_candidates(views(real_folders@), dict@);
    let dict_folders = dictionary_folders(dict);
    let mut names: Vec<String> = Vec::new();
    let mut is_real: Vec<bool> = Vec::new();
    let mut is_dict: Vec<bool> = Vec::new();
    for i in 0..real_folders.len()
        invariant
            names.len() == i,
            is_real.len() == i,
            is_dict.len() == i,
            views(dict_folders@) == distinct_folders(dict@),
            forall|k: int| 0 <= k < i ==> (names@[k]@, is_real@[k], is_dict@[k]) == #[trigger] c[k],
            c == folder_candidates(views(real_folders@), dict@),
    {
        let name = &real_folders[i];
        let in_dict = contains_str(&dict_folders, name.as_str());
        names.push(name.clone());
        is_real.push(true);
        is_dict.push(in_dict);
    }
    let ghost extra = not_among(distinct_folders(dict@), views(real_folders@));
    let ghost reals = views(real_folders@);
    assert(views(dict_folders@).take(0) =~= Seq::<Seq<char>>::empty());
    for j in 0..dict_folders.len()
        invariant
            names.len() == is_real.len(),
            names.len() == is_dict.len(),
            names.len() == real_folders.len() + not_among(views(dict_folders@).take(j as int), reals).len(),
            views(dict_folders@) == distinct_folders(dict@),
            forall|k: int| 0 <= k < names.len() ==> (names@[k]@, is_real@[k], is_dict@[k]) == #[trigger] c[k],
            c == folder_candidates(reals, dict@),
            reals == views(real_folders@),
            extra == not_among(distinct_folders(dict@), reals),
    {
        let d = &dict_folders[j];
        let ghost ds = views(dict_folders@);
        assert(ds.take(j + 1).drop_last() == ds.take(j as int));
        assert(ds.take(j + 1).last() == d@);
        proof {
            lemma_not_among_prefix(ds, reals, j + 1);
        }
        let ghost before = names@.len();
        if !contains_str(real_folders, d.as_str()) {
            names.push(d.clone());
            is_real.push(false);
            is_dict.push(true);
            proof {
                let a = not_among(ds.take(j + 1), reals);
                assert(a.last() == d@);
                assert(extra.take(a.len() as int) == a);
                assert(extra[a.len() - 1] == d@);
                assert(c[before as int] == (d@, false, true));
            }
        }
    }
    proof {
        assert(views(dict_folders@).take(dict_folders.len() as int) == views(dict_folders@));
        assert(names.len() == c.len());
    }
    let n = names.len();
    let mut keys: Vec<(String, Vec<String>, Vec<String>)> = Vec::new();
    for i in 0..n
        invariant
            n == names.len(),
            keys.len() == i,
            forall|k: int| 0 <= k < i ==> keys_view(#[trigger] keys@[k]) == name_keys(names@[k]@),
    {
        keys.push(analyze_name(names[i].as_str()));
    }
    let ghost name_views = views(names@);
    assert(name_views =~= candidate_names(c));
    assert(is_real@ =~= candidate_is_real(c));
    let adj = neighbor_lists(&keys, &is_real, Ghost(name_views));
    let clusters = similarity_clusters(&adj, &is_real, Ghost(name_views));
    let ghost cl = cluster_views(clusters@);
    let mut groups: Vec<SimilarGroup> = Vec::new();
    for g in 0..clusters.len()
        invariant
            n == names.len(),
            n == is_real.len(),
            n == is_dict.len(),
            n == c.len(),
            forall|k: int| 0 <= k < n ==> (names@[k]@, is_real@[k], is_dict@[k]) == #[trigger] c[k],
            cl == cluster_views(clusters@),
            is_similarity_clustering(name_views, is_real@, cl),
            name_views.len() == n,
            groups.len() == g,
            forall|g2: int| 0 <= g2 < g ==> #[trigger] group_matches(groups@[g2], g2, cl[g2], c),
            c == folder_candidates(views(real_folders@), dict@),
            name_views == candidate_names(c),
            is_real@ == candidate_is_real(c),
    {
        let members = &clusters[g];
        let mut candidates: Vec<SimilarCandidate> = Vec::new();
        for m in 0..members.len()
            invariant
                n == names.len(),
                n == is_real.len(),
                n == is_dict.len(),
                forall|k: int| 0 <= k < n ==> (names@[k]@, is_real@[k], is_dict@[k]) == #[trigger] c[k],
                cl == cluster_views(clusters@),
                is_similarity_clustering(name_views, is_real@, cl),
                name_views.len() == n,
                0 <= g < cl.len(),
                members@ == cl[g as int],
                candidates.len() == m,
                forall|m2: int| 0 <= m2 < m ==> (#[trigger] candidates@[m2])@ == c[members@[m2] as int],
        {
            let idx = members[m];
            assert(cl[g as int].contains(idx));
            candidates.push(SimilarCandidate {
                name: names[idx].clone(),
                is_real_folder: is_real[idx],
                is_dictionary: is_dict[idx],
            });
        }
        let ghost before = groups@;
        groups.push(SimilarGroup { id: g, candidates });
        assert(group_matches(groups@[g as int], g as int, cl[g as int], c));
        assert forall|g2: int| 0 <= g2 < g + 1 implies #[trigger] group_matches(groups@[g2], g2, cl[g2], c) by {
            if g2 < g {
                assert(groups@[g2] == before[g2]);
            }
        }
    }
    assert(groups_match(groups@, cl, c));
    groups
}

impl View for SmallFolder {
    type V = (Seq<char>, usize);

    open spec fn view(&self) -> (Seq<char>, usize) {
        (self.name@, self.file_count)
    }
}

/// The views of a sequence of small folders.
pub open spec fn small_views(v: Seq<SmallFolder>) -> Seq<(Seq<char>, usize)> {
    v.map_values(|f: SmallFolder| f@)
}

/// `a` comes strictly before `b`: fewer files, or as many files and a name
/// that comes first.
pub open spec fn small_before(a: (Seq<char>, usize), b: (Seq<char>, usize)) -> bool {
    a.1 < b.1 || (a.1 == b.1 && seq_less(a.0, b.0))
}

/// `small_before` is a strict order: irreflexive and transitive.
pub proof fn lemma_small_before_order(a: (Seq<char>, usize), b: (Seq<char>, usize), c: (Seq<char>, usize))
    ensures
        !small_before(a, a),
        small_before(a, b) && small_before(b, c) ==> small_before(a, c),
{
    lemma_seq_less_irreflexive(a.0);
    if small_before(a, b) && small_before(b, c) && a.1 == b.1 && b.1 == c.1 {
        lemma_seq_less_transitive(a.0, b.0, c.0);
    }
}

/// The folders with at most `threshold` files, in order.
pub open spec fn at_most(s: Seq<(Seq<char>, usize)>, threshold: usize) -> Seq<(Seq<char>, usize)>
    decreases s.len(),
{
    if s.len() == 0 {
        Seq::empty()
    } else if s.last().1 <= threshold {
        at_most(s.drop_last(), threshold).push(s.last())
    } else {
        at_most(s.drop_last(), threshold)
    }
}

/// A folder is among those with at most `threshold` files exactly when it is
/// one of the folders and has at most `threshold` files.
pub proof fn lemma_at_most_contents(s: Seq<(Seq<char>, usize)>, threshold: usize)
    ensures
        forall|x: (Seq<char>, usize)| #[trigger] at_most(s, threshold).contains(x) <==> (s.contains(x) && x.1 <= threshold),
    decreases s.len(),
{
    if s.len() > 0 {
        lemma_at_most_contents(s.drop_last(), threshold);
        let r = at_most(s.drop_last(), threshold);
        assert forall|x: (Seq<char>, usize)| #[trigger] at_most(s, threshold).contains(x) <==> (s.contains(x) && x.1 <= threshold) by {
            crate::text::lemma_push_contains(s.drop_last(), s.last(), x);
            assert(s.drop_last().push(s.last()) == s);
            if s.last().1 <= threshold {
                crate::text::lemma_push_contains(r, s.last(), x);
            }
        }
    }
}

/// Filtering never lengthens the list.
pub proof fn lemma_at_most_len(s: Seq<(Seq<char>, usize)>, threshold: usize)
    ensures
        at_most(s, threshold).len() <= s.len(),
    decreases s.len(),
{
    if s.len() > 0 {
        lemma_at_most_len(s.drop_last(), threshold);
    }
}

/// No folder comes strictly before one listed ahead of it.
pub open spec fn small_sorted(s: Seq<(Seq<char>, usize)>) -> bool {
    forall|i: int, j: int| 0 <= i < j < s.len() ==> !small_before(#[trigger] s[j], #[trigger] s[i])
}

/// The folders with at most `threshold` files, by number of files and then by name.
pub fn detect_small_folders(folders: &Vec<SmallFolder>, threshold: usize) -> (r: Vec<SmallFolder>)
    ensures
        small_sorted(small_views(r@)),
        small_views(r@).to_multiset() == at_most(small_views(folders@), threshold).to_multiset(),
        forall|i: int| 0 <= i < folders.len() && (#[trigger] folders@[i]).file_count <= threshold
            ==> small_views(r@).contains(folders@[i]@),
        forall|j: int| 0 <= j < r.len() ==> (#[trigger] r@[j]).file_count <= threshold
            && small_views(folders@).contains(r@[j]@),
        forall|i: int, j: int| 0 <= i < j < r.len() ==> (#[trigger] r@[i]).file_count <= (#[trigger] r@[j]).file_count,
        forall|i: int, j: int| 0 <= i < j < r.len() && (#[trigger] r@[i]).file_count == (#[trigger] r@[j]).file_count
            ==> !seq_less(r@[j].name@, r@[i].name@),
        r.len() <= folders.len(),
{
    let mut r: Vec<SmallFolder> = Vec::new();
    assert(small_views(r@) =~= Seq::<(Seq<char>, usize)>::empty());
    assert(at_most(small_views(folders@).take(0), threshold) =~= Seq::<(Seq<char>, usize)>::empty());
    for i in 0..folders.len()
        invariant
            small_sorted(small_views(r@)),
            small_views(r@).to_multiset() == at_most(small_views(folders@).take(i as int), threshold).to_multiset(),
    {
        let f = &folders[i];
        assert(small_views(folders@).take(i + 1).drop_last() == small_views(folders@).take(i as int));
        if f.file_count <= threshold {
            let x = SmallFolder { name: f.name.clone(), file_count: f.file_count };
            let mut p: usize = 0;
            while p < r.len() && !(x.file_count < r[p].file_count || (x.file_count == r[p].file_count
                && str_less(x.name.as_str(), r[p].name.as_str())))
                invariant
                    p <= r.len(),
                    forall|k: int| 0 <= k < p ==> !small_before(x@, #[trigger] small_views(r@)[k]),
                decreases r.len() - p,
            {
                p = p + 1;
            }
            let ghost before = small_views(r@);
            proof {
                if p < r.len() {
                    assert(small_before(x@, before[p as int]));
                }
            }
            r.insert(p, x);
            proof {
                assert(small_views(r@) =~= before.insert(p as int, x@));
                assert forall|a: int, b: int| 0 <= a < b < small_views(r@).len() implies !small_before(
                    #[trigger] small_views(r@)[b],
                    #[trigger] small_views(r@)[a],
                ) by {
                    if a == p && b > p {
                        lemma_small_before_order(before[b - 1], x@, before[p as int]);
                        if b - 1 > p {
                            assert(!small_before(before[b - 1], before[p as int]));
                        }
                    } else if a < p && b > p {
                        assert(!small_before(before[b - 1], before[a]));
                    } else if a > p {
                        assert(!small_before(before[b - 1], before[a - 1]));
                    }
                }
                vstd::seq_lib::to_multiset_insert(before, p as int, x@);
                vstd::seq_lib::to_multiset_build(at_most(small_views(folders@).take(i as int), threshold), x@);
                assert(small_views(folders@).take(i + 1).last() == x@);
                assert(small_views(r@).to_multiset() == before.to_multiset().insert(x@));
            }
        }
    }
    assert(small_views(folders@).take(folders.len() as int) == small_views(folders@));
    proof {
        let fv = small_views(folders@);
        let rv = small_views(r@);
        lemma_at_most_contents(fv, threshold);
        assert forall|i: int| 0 <= i < folders.len() && (#[trigger] folders@[i]).file_count <= threshold
            implies rv.contains(folders@[i]@) by {
            assert(fv[i] == folders@[i]@);
            assert(at_most(fv, threshold).contains(fv[i]));
            vstd::seq_lib::to_multiset_contains(at_most(fv, threshold), fv[i]);
            vstd::seq_lib::to_multiset_contains(rv, fv[i]);
        }
        assert forall|j: int| 0 <= j < r.len() implies (#[trigger] r@[j]).file_count <= threshold
            && fv.contains(r@[j]@) by {
            assert(rv[j] == r@[j]@);
            vstd::seq_lib::to_multiset_contains(rv, rv[j]);
            vstd::seq_lib::to_multiset_contains(at_most(fv, threshold), rv[j]);
        }
        assert forall|i: int, j: int| 0 <= i < j < r.len() implies (#[trigger] r@[i]).file_count <= (#[trigger] r@[j]).file_count by {
            assert(!small_before(rv[j], rv[i]));
        }
        assert forall|i: int, j: int| 0 <= i < j < r.len() && (#[trigger] r@[i]).file_count == (#[trigger] r@[j]).file_count
            implies !seq_less(r@[j].name@, r@[i].name@) by {
            assert(!small_before(rv[j], rv[i]));
        }
        lemma_at_most_len(fv, threshold);
        rv.to_multiset_ensures();
        at_most(fv, threshold).to_multiset_ensures();
    }
    r
}

} // verus!
