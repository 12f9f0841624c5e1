//! The dictionary edits behind the user's commands: hand-made destination
//! overrides, merges of folders, adding and removing keys and folders, and
//! building a dictionary from folder names.
use vstd::prelude::*;
use crate::dictionary::{
    generate_keys_from_folder_name, inserted, inserted_all, keys_distinct, keys_for_folder,
    lemma_inserted, lemma_inserted_all_to, lemma_keys_for_folder_lead_to_it, lemma_renamed, lookup,
    pair_views, removed, renamed, folder_values, Dictionary, EntryView,
};
use crate::fs_utils::{sanitize_folder_name, sanitized_name};
use crate::normalize::{normalize, normalized};
use crate::text::{copy_str, str_equal};
use crate::types::{DestinationOverride, MatchType, MergeGroup};

verus! {

impl View for DestinationOverride {
    type V = (Seq<char>, Seq<char>, Seq<char>, Seq<char>, MatchType);

    open spec fn view(&self) -> Self::V {
        (self.file_path@, self.original_destination@, self.new_destination@, self.tag@, self.match_type)
    }
}

/// The pairs with every folder replaced by `t`.
pub open spec fn retargeted(pairs: Seq<EntryView>, t: Seq<char>) -> Seq<EntryView> {
    pairs.map_values(|p: EntryView| (p.0, t))
}

/// The dictionary after one hand-made override. An override that keeps its
/// destination, or whose sanitised destination is empty, changes nothing.
/// For a tag that had made a new folder, the tag's key and the keys of the
/// new destination are registered. For a tag that had matched the
/// dictionary, the old folder is renamed, the keys of the old folder's name
/// now lead to the new folder, and the keys of the new folder are registered.
pub open spec fn override_applied(
    s: Seq<EntryView>,
    ov: (Seq<char>, Seq<char>, Seq<char>, Seq<char>, MatchType),
) -> Seq<EntryView> {
    let nd = sanitized_name(ov.2);
    if ov.1 == ov.2 || nd.len() == 0 {
        s
    } else {
        match ov.4 {
            MatchType::AutoCreated => {
                let tk = normalized(ov.3);
                let s1 = if tk.len() > 0 { inserted(s, tk, nd) } else { s };
                inserted_all(s1, keys_for_folder(nd))
            },
            _ => inserted_all(
                inserted_all(renamed(s, ov.1, nd), retargeted(keys_for_folder(ov.1), nd)),
                keys_for_folder(nd),
            ),
        }
    }
}

/// An override away from a folder the dictionary matched redirects it: every
/// key that led to the old folder, and every key of the old folder's name,
/// then leads to the sanitised new destination, as do the keys of the new
/// destination's name.
pub proof fn lemma_override_redirects(
    s: Seq<EntryView>,
    ov: (Seq<char>, Seq<char>, Seq<char>, Seq<char>, MatchType),
)
    requires
        keys_distinct(s),
        ov.1 != ov.2,
        sanitized_name(ov.2).len() > 0,
        ov.4 != MatchType::AutoCreated,
    ensures
        keys_distinct(override_applied(s, ov)),
        forall|k: Seq<char>| lookup(s, k) == Some(ov.1) ==> lookup(#[trigger] override_applied(s, ov), k)
            == Some(sanitized_name(ov.2)),
        forall|i: int| 0 <= i < keys_for_folder(ov.1).len() ==> lookup(
            override_applied(s, ov),
            (#[trigger] keys_for_folder(ov.1)[i]).0,
        ) == Some(sanitized_name(ov.2)),
        forall|i: int| 0 <= i < keys_for_folder(sanitized_name(ov.2)).len() ==> lookup(
            override_applied(s, ov),
            (#[trigger] keys_for_folder(sanitized_name(ov.2))[i]).0,
        ) == Some(sanitized_name(ov.2)),
{
    let nd = sanitized_name(ov.2);
    let s1 = renamed(s, ov.1, nd);
    assert forall|k: Seq<char>| lookup(s, k) == Some(ov.1) implies lookup(s1, k) == Some(nd) by {
        lemma_renamed(s, ov.1, nd, k);
    }
    lemma_renamed(s, ov.1, nd, Seq::empty());
    let moved = retargeted(keys_for_folder(ov.1), nd);
    lemma_inserted_all_to(s1, moved, nd);
    let s2 = inserted_all(s1, moved);
    lemma_keys_for_folder_lead_to_it(nd);
    lemma_inserted_all_to(s2, keys_for_folder(nd), nd);
    assert forall|i: int| 0 <= i < keys_for_folder(ov.1).len() implies lookup(
        override_applied(s, ov),
        (#[trigger] keys_for_folder(ov.1)[i]).0,
    ) == Some(nd) by {
        assert(moved[i].0 == keys_for_folder(ov.1)[i].0);
    }
}

/// An override of a tag that had made a new folder makes the tag's key (when
/// not empty) and the keys of the new destination's name lead to the
/// sanitised new destination.
pub proof fn lemma_override_registers_tag(
    s: Seq<EntryView>,
    ov: (Seq<char>, Seq<char>, Seq<char>, Seq<char>, MatchType),
)
    requires
        keys_distinct(s),
        ov.1 != ov.2,
        sanitized_name(ov.2).len() > 0,
        ov.4 == MatchType::AutoCreated,
    ensures
        keys_distinct(override_applied(s, ov)),
        normalized(ov.3).len() > 0 ==> lookup(override_applied(s, ov), normalized(ov.3)) == Some(sanitized_name(ov.2)),
        forall|i: int| 0 <= i < keys_for_folder(sanitized_name(ov.2)).len() ==> lookup(
            override_applied(s, ov),
            (#[trigger] keys_for_folder(sanitized_name(ov.2))[i]).0,
        ) == Some(sanitized_name(ov.2)),
{
    let nd = sanitized_name(ov.2);
    let tk = normalized(ov.3);
    let s1 = if tk.len() > 0 { inserted(s, tk, nd) } else { s };
    if tk.len() > 0 {
        lemma_inserted(s, tk, nd);
    }
    lemma_keys_for_folder_lead_to_it(nd);
    lemma_inserted_all_to(s1, keys_for_folder(nd), nd);
}

/// The dictionary after the overrides, in order.
pub open spec fn overrides_applied(
    s: Seq<EntryView>,
    ovs: Seq<(Seq<char>, Seq<char>, Seq<char>, Seq<char>, MatchType)>,
) -> Seq<EntryView>
    decreases ovs.len(),
{
    if ovs.len() == 0 {
        s
    } else {
        override_applied(overrides_applied(s, ovs.drop_last()), ovs.last())
    }
}

/// The views of a sequence of overrides.
pub open spec fn override_views(v: Seq<DestinationOverride>) -> Seq<(Seq<char>, Seq<char>, Seq<char>, Seq<char>, MatchType)> {
    v.map_values(|o: DestinationOverride| o@)
}

/// Pairs `(k, target)` for every key `k` of `pairs`.
fn retarget(pairs: Vec<(String, String)>, target: &str) -> (r: Vec<(String, String)>)
    ensures
        pair_views(r@) == retargeted(pair_views(pairs@), target@),
{
    let mut r: Vec<(String, String)> = Vec::new();
    for i in 0..pairs.len()
        invariant
            pair_views(r@) == retargeted(pair_views(pairs@).take(i as int), target@),
    {
        let ghost before = pair_views(r@);
        r.push((pairs[i].0.clone(), copy_str(target)));
        assert(pair_views(r@) =~= before.push((pairs@[i as int].0@, target@)));
        assert(retargeted(pair_views(pairs@).take(i + 1), target@) =~= retargeted(
            pair_views(pairs@).take(i as int),
            target@,
        ).push((pairs@[i as int].0@, target@)));
    }
    assert(pair_views(pairs@).take(pairs.len() as int) == pair_views(pairs@));
    r
}

/// Applies one hand-made override to the dictionary.
fn apply_override(dict: &mut Dictionary, ov: &DestinationOverride)
    requires
        old(dict).wf(),
    ensures
        final(dict).wf(),
        final(dict)@ == override_applied(old(dict)@, ov@),
{
    if str_equal(ov.original_destination.as_str(), ov.new_destination.as_str()) {
        return;
    }
    let new_dest = sanitize_folder_name(ov.new_destination.as_str());
    if new_dest.as_str().unicode_len() == 0 {
        return;
    }
    match ov.match_type {
        MatchType::AutoCreated => {
            let tag_key = normalize(ov.tag.as_str());
            if tag_key.as_str().unicode_len() > 0 {
                dict.insert(tag_key, new_dest.clone());
            }
            dict.insert_all(generate_keys_from_folder_name(new_dest.as_str()));
        },
        _ => {
            dict.rename_folder(ov.original_destination.as_str(), new_dest.as_str());
            let old_keys = generate_keys_from_folder_name(ov.original_destination.as_str());
            dict.insert_all(retarget(old_keys, new_dest.as_str()));
            dict.insert_all(generate_keys_from_folder_name(new_dest.as_str()));
        },
    }
}

/// Applies the hand-made overrides, in order, to the dictionary.
pub fn apply_overrides(dict: &mut Dictionary, overrides: &Vec<DestinationOverride>)
    requires
        old(dict).wf(),
    ensures
        final(dict).wf(),
        final(dict)@ == overrides_applied(old(dict)@, override_views(overrides@)),
{
    let ghost start = dict@;
    for i in 0..overrides.len()
        invariant
            dict.wf(),
            dict@ == overrides_applied(start, override_views(overrides@).take(i as int)),
    {
        assert(override_views(overrides@).take(i + 1).drop_last() == override_views(overrides@).take(i as int));
        apply_override(dict, &overrides[i]);
    }
    assert(override_views(overrides@).take(overrides.len() as int) == override_views(overrides@));
}

/// The destinations chosen by hand, keyed by file path: for each override
/// that changes its destination, the sanitised new destination, unless it is
/// empty; a later override of the same path wins.
pub open spec fn override_destinations(
    ovs: Seq<(Seq<char>, Seq<char>, Seq<char>, Seq<char>, MatchType)>,
) -> Seq<EntryView>
    decreases ovs.len(),
{
    if ovs.len() == 0 {
        Seq::empty()
    } else {
        let r = override_destinations(ovs.drop_last());
        let ov = ovs.last();
        let nd = sanitized_name(ov.2);
        if ov.1 == ov.2 || nd.len() == 0 {
            r
        } else {
            inserted(r, ov.0, nd)
        }
    }
}

/// Maps each overridden file path to its sanitised new destination.
pub fn override_map(overrides: &Vec<DestinationOverride>) -> (m: Dictionary)
    ensures
        m.wf(),
        m@ == override_destinations(override_views(overrides@)),
{
    let mut m = Dictionary::new();
    for i in 0..overrides.len()
        invariant
            m.wf(),
            m@ == override_destinations(override_views(overrides@).take(i as int)),
    {
        let ov = &overrides[i];
        assert(override_views(overrides@).take(i + 1).drop_last() == override_views(overrides@).take(i as int));
        if !str_equal(ov.original_destination.as_str(), ov.new_destination.as_str()) {
            let sanitized = sanitize_folder_name(ov.new_destination.as_str());
            if sanitized.as_str().unicode_len() > 0 {
                m.insert(ov.file_path.clone(), sanitized);
            }
        }
    }
    assert(override_views(overrides@).take(overrides.len() as int) == override_views(overrides@));
    m
}

impl View for MergeGroup {
    type V = (Seq<char>, Seq<Seq<char>>);

    open spec fn view(&self) -> (Seq<char>, Seq<Seq<char>>) {
        (self.target_name@, crate::text::views(self.source_names@))
    }
}

/// The dictionary after the keys of each source folder name are made to
/// lead to `target`, source by source.
pub open spec fn sources_merged(s: Seq<EntryView>, sources: Seq<Seq<char>>, target: Seq<char>) -> Seq<EntryView>
    decreases sources.len(),
{
    if sources.len() == 0 {
        s
    } else {
        inserted_all(
            sources_merged(s, sources.drop_last(), target),
            retargeted(keys_for_folder(sources.last()), target),
        )
    }
}

/// The dictionary after a merge group: the keys of the target's name are
/// registered, then the keys of every source name lead to the target.
pub open spec fn merge_applied(s: Seq<EntryView>, g: (Seq<char>, Seq<Seq<char>>)) -> Seq<EntryView> {
    sources_merged(inserted_all(s, keys_for_folder(g.0)), g.1, g.0)
}

/// The dictionary after the merge groups, in order.
pub open spec fn merges_applied(s: Seq<EntryView>, gs: Seq<(Seq<char>, Seq<Seq<char>>)>) -> Seq<EntryView>
    decreases gs.len(),
{
    if gs.len() == 0 {
        s
    } else {
        merge_applied(merges_applied(s, gs.drop_last()), gs.last())
    }
}

/// After a merge group, the keys of the target's name and of every source
/// name lead to the target, and so does every key that led to it before.
pub proof fn lemma_merge_redirects(s: Seq<EntryView>, g: (Seq<char>, Seq<Seq<char>>))
    requires
        keys_distinct(s),
    ensures
        keys_distinct(merge_applied(s, g)),
        forall|k: Seq<char>| lookup(s, k) == Some(g.0) ==> lookup(#[trigger] merge_applied(s, g), k) == Some(g.0),
        forall|i: int| 0 <= i < keys_for_folder(g.0).len() ==> lookup(
            merge_applied(s, g),
            (#[trigger] keys_for_folder(g.0)[i]).0,
        ) == Some(g.0),
        forall|j: int, i: int| 0 <= j < g.1.len() && 0 <= i < keys_for_folder(g.1[j]).len() ==> lookup(
            merge_applied(s, g),
            (#[trigger] keys_for_folder(#[trigger] g.1[j])[i]).0,
        ) == Some(g.0),
{
    lemma_keys_for_folder_lead_to_it(g.0);
    lemma_inserted_all_to(s, keys_for_folder(g.0), g.0);
    let s1 = inserted_all(s, keys_for_folder(g.0));
    lemma_sources_merged(s1, g.1, g.0);
    assert forall|i: int| 0 <= i < keys_for_folder(g.0).len() implies lookup(
        merge_applied(s, g),
        (#[trigger] keys_for_folder(g.0)[i]).0,
    ) == Some(g.0) by {
        assert(lookup(s1, keys_for_folder(g.0)[i].0) == Some(g.0));
    }
}

/// Merging sources keeps the keys distinct and the keys that already led to
/// the target, and makes every key of every source lead to the target.
proof fn lemma_sources_merged(s: Seq<EntryView>, sources: Seq<Seq<char>>, t: Seq<char>)
    requires
        keys_distinct(s),
    ensures
        keys_distinct(sources_merged(s, sources, t)),
        forall|k: Seq<char>| lookup(s, k) == Some(t) ==> lookup(#[trigger] sources_merged(s, sources, t), k) == Some(t),
        forall|j: int, i: int| 0 <= j < sources.len() && 0 <= i < keys_for_folder(sources[j]).len() ==> lookup(
            sources_merged(s, sources, t),
            (#[trigger] keys_for_folder(#[trigger] sources[j])[i]).0,
        ) == Some(t),
    decreases sources.len(),
{
    if sources.len() > 0 {
        let front = sources.drop_last();
        lemma_sources_merged(s, front, t);
        let r = sources_merged(s, front, t);
        let moved = retargeted(keys_for_folder(sources.last()), t);
        lemma_inserted_all_to(r, moved, t);
        assert forall|j: int, i: int| 0 <= j < sources.len() && 0 <= i < keys_for_folder(sources[j]).len() implies lookup(
            sources_merged(s, sources, t),
            (#[trigger] keys_for_folder(#[trigger] sources[j])[i]).0,
        ) == Some(t) by {
            if j < sources.len() - 1 {
                assert(front[j] == sources[j]);
                assert(lookup(r, keys_for_folder(front[j])[i].0) == Some(t));
            } else {
                assert(moved[i].0 == keys_for_folder(sources[j])[i].0);
            }
        }
    }
}

/// The views of a sequence of merge groups.
pub open spec fn merge_views(v: Seq<MergeGroup>) -> Seq<(Seq<char>, Seq<Seq<char>>)> {
    v.map_values(|g: MergeGroup| g@)
}

/// Records merges in the dictionary: for each group, the keys of the target
/// name lead to it, and so do the keys of each source name.
pub fn apply_merge_groups(dict: &mut Dictionary, groups: &Vec<MergeGroup>)
    requires
        old(dict).wf(),
    ensures
        final(dict).wf(),
        final(dict)@ == merges_applied(old(dict)@, merge_views(groups@)),
{
    let ghost start = dict@;
    for i in 0..groups.len()
        invariant
            dict.wf(),
            dict@ == merges_applied(start, merge_views(groups@).take(i as int)),
    {
        let group = &groups[i];
        assert(merge_views(groups@).take(i + 1).drop_last() == merge_views(groups@).take(i as int));
        let ghost before = dict@;
        dict.insert_all(generate_keys_from_folder_name(group.target_name.as_str()));
        let ghost with_target = dict@;
        let ghost srcs = crate::text::views(group.source_names@);
        for j in 0..group.source_names.len()
            invariant
                dict.wf(),
                srcs == crate::text::views(group.source_names@),
                dict@ == sources_merged(with_target, srcs.take(j as int), group.target_name@),
        {
            assert(srcs.take(j + 1).drop_last() == srcs.take(j as int));
            let source_keys = generate_keys_from_folder_name(group.source_names[j].as_str());
            dict.insert_all(retarget(source_keys, group.target_name.as_str()));
        }
        assert(srcs.take(group.source_names.len() as int) == srcs);
    }
    assert(merge_views(groups@).take(groups.len() as int) == merge_views(groups@));
}

/// The dictionary built from folder names: the keys of each name, name by name.
pub open spec fn dictionary_of_folders(names: Seq<Seq<char>>) -> Seq<EntryView>
    decreases names.len(),
{
    if names.len() == 0 {
        Seq::empty()
    } else {
        inserted_all(dictionary_of_folders(names.drop_last()), keys_for_folder(names.last()))
    }
}

/// Builds a dictionary from the names of existing folders.
pub fn dictionary_from_folder_names(names: &Vec<String>) -> (d: Dictionary)
    ensures
        d.wf(),
        d@ == dictionary_of_folders(crate::text::views(names@)),
{
    let mut d = Dictionary::new();
    let ghost ns = crate::text::views(names@);
    for i in 0..names.len()
        invariant
            d.wf(),
            ns == crate::text::views(names@),
            d@ == dictionary_of_folders(ns.take(i as int)),
    {
        assert(ns.take(i + 1).drop_last() == ns.take(i as int));
        d.insert_all(generate_keys_from_folder_name(names[i].as_str()));
    }
    assert(ns.take(names.len() as int) == ns);
    d
}

/// Why a dictionary edit was refused.
#[derive(Debug, Clone)]
pub enum DictionaryEditError {
    /// The key normalises to nothing.
    EmptyKey,
    /// The key already leads to another folder.
    KeyTaken { key: String, existing: String },
    /// No folder name was given.
    EmptyFolderName,
    /// The folder is already in the dictionary.
    FolderExists { folder: String },
}

/// The first pair whose key already leads to a different folder, with that folder.
pub open spec fn first_conflict(s: Seq<EntryView>, pairs: Seq<EntryView>) -> Option<(Seq<char>, Seq<char>)>
    decreases pairs.len(),
{
    if pairs.len() == 0 {
        None
    } else if lookup(s, pairs[0].0) is Some && lookup(s, pairs[0].0)->0 != pairs[0].1 {
        Some((pairs[0].0, lookup(s, pairs[0].0)->0))
    } else {
        first_conflict(s, pairs.drop_first())
    }
}

/// Adds an entry. With a key: the key is normalised and must not be empty or
/// lead to another folder already; it then leads to the folder, and the
/// normalised key is returned. Without a key: the folder name must not be
/// empty or be in the dictionary already, and none of its keys may lead to
/// another folder; its keys are then registered, and the name is returned.
pub fn add_dictionary_entry(dict: &mut Dictionary, folder_name: String, key: Option<String>) -> (r: Result<String, DictionaryEditError>)
    requires
        old(dict).wf(),
    ensures
        final(dict).wf(),
        r is Err ==> final(dict)@ == old(dict)@,
        match key {
            Some(raw) => {
                let nk = normalized(raw@);
                if nk.len() == 0 {
                    r matches Err(DictionaryEditError::EmptyKey)
                } else if lookup(old(dict)@, nk) is Some && lookup(old(dict)@, nk)->0 != folder_name@ {
                    r matches Err(DictionaryEditError::KeyTaken { key, existing }) && key@ == nk
                        && existing@ == lookup(old(dict)@, nk)->0
                } else {
                    r matches Ok(k) && k@ == nk && final(dict)@ == inserted(old(dict)@, nk, folder_name@)
                }
            },
            None => {
                if folder_name@.len() == 0 {
                    r matches Err(DictionaryEditError::EmptyFolderName)
                } else if folder_values(old(dict)@).contains(folder_name@) {
                    r matches Err(DictionaryEditError::FolderExists { folder }) && folder@ == folder_name@
                } else if first_conflict(old(dict)@, keys_for_folder(folder_name@)) is Some {
                    let c = first_conflict(old(dict)@, keys_for_folder(folder_name@))->0;
                    r matches Err(DictionaryEditError::KeyTaken { key, existing }) && key@ == c.0 && existing@ == c.1
                } else {
                    r matches Ok(f) && f@ == folder_name@ && final(dict)@ == inserted_all(
                        old(dict)@,
                        keys_for_folder(folder_name@),
                    )
                }
            },
        },
{
    match key {
        Some(raw_key) => {
            let normalized_key = normalize(raw_key.as_str());
            if normalized_key.as_str().unicode_len() == 0 {
                return Err(DictionaryEditError::EmptyKey);
            }
            if let Some(existing) = dict.get(normalized_key.as_str()) {
                if !str_equal(existing.as_str(), folder_name.as_str()) {
                    return Err(DictionaryEditError::KeyTaken { key: normalized_key, existing: existing.clone() });
                }
            }
            dict.insert(normalized_key.clone(), folder_name);
            Ok(normalized_key)
        },
        None => {
            if folder_name.as_str().unicode_len() == 0 {
                return Err(DictionaryEditError::EmptyFolderName);
            }
            let n = dict.len();
            for i in 0..n
                invariant
                    dict.wf(),
                    n == dict@.len(),
                    key is None,
                    folder_name@.len() > 0,
                    dict@ == old(dict)@,
                    forall|j: int| 0 <= j < i ==> dict@[j].1 != folder_name@,
            {
                if str_equal(dict.folder_at(i).as_str(), folder_name.as_str()) {
                    assert(folder_values(dict@)[i as int] == folder_name@);
                    return Err(DictionaryEditError::FolderExists { folder: folder_name });
                }
            }
            assert(!folder_values(dict@).contains(folder_name@));
            let keys = generate_keys_from_folder_name(folder_name.as_str());
            let ghost pairs = pair_views(keys@);
            assert(pairs.skip(0) == pairs);
            for i in 0..keys.len()
                invariant
                    dict.wf(),
                    pairs == pair_views(keys@),
                    pairs == keys_for_folder(folder_name@),
                    key is None,
                    folder_name@.len() > 0,
                    dict@ == old(dict)@,
                    !folder_values(dict@).contains(folder_name@),
                    first_conflict(dict@, pairs) == first_conflict(dict@, pairs.skip(i as int)),
            {
                assert(pairs.skip(i as int)[0] == pairs[i as int]);
                assert(pairs.skip(i as int).drop_first() == pairs.skip(i + 1));
                if let Some(existing) = dict.get(keys[i].0.as_str()) {
                    if !str_equal(existing.as_str(), keys[i].1.as_str()) {
                        return Err(DictionaryEditError::KeyTaken { key: keys[i].0.clone(), existing: existing.clone() });
                    }
                }
            }
            assert(pairs.skip(keys.len() as int) =~= Seq::<EntryView>::empty());
            dict.insert_all(keys);
            Ok(folder_name)
        },
    }
}

/// Removes a key, given in any spelling: its normalised form is removed.
pub fn remove_dictionary_key(dict: &mut Dictionary, key: &str)
    requires
        old(dict).wf(),
    ensures
        final(dict).wf(),
        final(dict)@ == removed(old(dict)@, normalized(key@)),
        lookup(final(dict)@, normalized(key@)) is None,
{
    let normalized_key = normalize(key);
    dict.remove(normalized_key.as_str());
}

/// Removes every key that leads to `folder_name`.
pub fn remove_dictionary_folder(dict: &mut Dictionary, folder_name: &str)
    requires
        old(dict).wf(),
    ensures
        final(dict).wf(),
        final(dict)@ == crate::dictionary::without_folder(old(dict)@, folder_name@),
{
    dict.remove_folder(folder_name);
}

/// Renames a folder: every key that led to `old_folder_name` leads to `new_folder_name`.
pub fn update_dictionary_entry(dict: &mut Dictionary, old_folder_name: &str, new_folder_name: &str)
    requires
        old(dict).wf(),
    ensures
        final(dict).wf(),
        final(dict)@ == renamed(old(dict)@, old_folder_name@, new_folder_name@),
{
    dict.rename_folder(old_folder_name, new_folder_name);
}

} // verus!
