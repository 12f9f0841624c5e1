//! Folder-name sanitising and the naming rule that avoids overwriting files.
use vstd::prelude::*;
use std::path::{Component, Path};
use crate::text::{
    chars_of, embeds, has_pair, is_subsequence, keep, lemma_embeds_compose, lemma_keep_all,
    lemma_keep_embeds, lemma_keep_identity, lemma_keep_step, lemma_replace_pair_until_gone,
    lemma_replace_pair_until_gone_embeds, pair_at, push_char, replace_pair_repeatedly,
    replace_pair_until_gone, string_of,
};

verus! {

/// How many numbered names are tried before a collision is given up.
pub const COLLISION_LIMIT: u32 = 10000;

/// Characters that are not path separators (`/`, `\`, `:`).
pub open spec fn not_path_separator() -> spec_fn(char) -> bool {
    |c: char| c != '/' && c != '\\' && c != ':'
}

/// `s` without its leading `.` characters.
pub open spec fn trim_leading_dots(s: Seq<char>) -> Seq<char>
    decreases s.len(),
{
    if s.len() > 0 && s[0] == '.' {
        trim_leading_dots(s.drop_first())
    } else {
        s
    }
}

/// The sanitised form of a folder or tag name: path separators removed,
/// `..` removed until none is left, then leading dots removed.
pub open spec fn sanitized_name(s: Seq<char>) -> Seq<char> {
    trim_leading_dots(replace_pair_until_gone(keep(s, not_path_separator()), '.', Seq::empty()))
}

/// A character that is not a path separator.
pub open spec fn is_not_separator(c: char) -> bool {
    c != '/' && c != '\\' && c != ':'
}

/// What removing leading dots keeps: a suffix of the input that does not
/// start with a dot.
pub proof fn lemma_trim_leading_dots(s: Seq<char>)
    ensures
        exists|k: int| 0 <= k <= s.len() && trim_leading_dots(s) == #[trigger] s.skip(k),
        trim_leading_dots(s).len() > 0 ==> trim_leading_dots(s)[0] != '.',
    decreases s.len(),
{
    if s.len() > 0 && s[0] == '.' {
        lemma_trim_leading_dots(s.drop_first());
        let k = choose|k: int| 0 <= k <= s.drop_first().len() && trim_leading_dots(s.drop_first()) == #[trigger] s.drop_first().skip(k);
        assert(s.drop_first().skip(k) == s.skip(k + 1));
    } else {
        assert(s.skip(0) == s);
    }
}

/// A sanitised name cannot leave its folder: it holds no path separator and
/// no `..`, and it does not start with a dot.
pub proof fn lemma_sanitized_name_is_safe(s: Seq<char>)
    ensures
        forall|i: int| 0 <= i < sanitized_name(s).len() ==> is_not_separator(#[trigger] sanitized_name(s)[i]),
        !has_pair(sanitized_name(s), '.'),
        sanitized_name(s).len() > 0 ==> sanitized_name(s)[0] != '.',
{
    let q = |c: char| is_not_separator(c);
    let kept = keep(s, not_path_separator());
    lemma_keep_all(s, not_path_separator());
    assert forall|i: int| 0 <= i < kept.len() implies q(#[trigger] kept[i]) by {
        assert(not_path_separator()(kept[i]));
    }
    let gone = replace_pair_until_gone(kept, '.', Seq::empty());
    lemma_replace_pair_until_gone(kept, '.', Seq::empty(), q);
    lemma_trim_leading_dots(gone);
    let k = choose|k: int| 0 <= k <= gone.len() && trim_leading_dots(gone) == #[trigger] gone.skip(k);
    let r = sanitized_name(s);
    assert(r == gone.skip(k));
    assert forall|i: int| 0 <= i < r.len() implies is_not_separator(#[trigger] r[i]) by {
        assert(r[i] == gone[i + k]);
        assert(q(gone[i + k]));
    }
    if has_pair(r, '.') {
        let i = choose|i: int| 0 <= i < r.len() - 1 && #[trigger] pair_at(r, '.', i);
        assert(pair_at(gone, '.', i + k));
    }
}

/// Sanitising only leaves characters out: the sanitised name is a
/// subsequence of the name.
pub proof fn lemma_sanitized_name_is_subsequence(s: Seq<char>)
    ensures
        is_subsequence(sanitized_name(s), s),
{
    let kept = keep(s, not_path_separator());
    let gone = replace_pair_until_gone(kept, '.', Seq::empty());
    let i1 = lemma_keep_embeds(s, not_path_separator());
    let i2 = lemma_replace_pair_until_gone_embeds(kept, '.');
    let i12 = lemma_embeds_compose(gone, kept, s, i2, i1);
    lemma_trim_leading_dots(gone);
    let k = choose|k: int| 0 <= k <= gone.len() && trim_leading_dots(gone) == #[trigger] gone.skip(k);
    let r = sanitized_name(s);
    let i3 = Seq::new(r.len(), |j: int| j + k);
    assert(embeds(r, gone, i3));
    let idx = lemma_embeds_compose(r, gone, s, i3, i12);
    assert(embeds(r, s, idx));
}

/// Sanitising a sanitised name changes nothing.
pub proof fn lemma_sanitize_idempotent(s: Seq<char>)
    ensures
        sanitized_name(sanitized_name(s)) == sanitized_name(s),
{
    let r = sanitized_name(s);
    lemma_sanitized_name_is_safe(s);
    assert forall|i: int| 0 <= i < r.len() implies not_path_separator()(#[trigger] r[i]) by {
        assert(is_not_separator(r[i]));
    }
    lemma_keep_identity(r, not_path_separator());
    assert(replace_pair_until_gone(r, '.', Seq::empty()) == r);
}

/// Removes what could make a name escape its folder: `/`, `\` and `:`,
/// every `..`, and leading dots.
pub fn sanitize_folder_name(name: &str) -> (r: String)
    ensures
        r@ == sanitized_name(name@),
{
    let chars = chars_of(name);
    let mut kept: Vec<char> = Vec::new();
    for i in 0..chars.len()
        invariant
            kept@ == keep(chars@.take(i as int), not_path_separator()),
    {
        proof {
            lemma_keep_step(chars@, not_path_separator(), i as int);
        }
        let c = chars[i];
        if c != '/' && c != '\\' && c != ':' {
            kept.push(c);
        }
    }
    assert(chars@.take(chars@.len() as int) == chars@);
    let empty: Vec<char> = Vec::new();
    let no_dotdot = replace_pair_repeatedly(kept, '.', &empty);
    let mut lo: usize = 0;
    assert(no_dotdot@.skip(0) == no_dotdot@);
    while lo < no_dotdot.len() && no_dotdot[lo] == '.'
        invariant
            lo <= no_dotdot.len(),
            trim_leading_dots(no_dotdot@) == trim_leading_dots(no_dotdot@.skip(lo as int)),
        decreases no_dotdot.len() - lo,
    {
        assert(no_dotdot@.skip(lo as int).drop_first() == no_dotdot@.skip(lo + 1));
        lo = lo + 1;
    }
    let mut out = String::new();
    let mut i = lo;
    while i < no_dotdot.len()
        invariant
            lo <= i <= no_dotdot.len(),
            out@ == no_dotdot@.subrange(lo as int, i as int),
        decreases no_dotdot.len() - i,
    {
        push_char(&mut out, no_dotdot[i]);
        assert(no_dotdot@.subrange(lo as int, i + 1) == no_dotdot@.subrange(lo as int, i as int).push(
            no_dotdot@[i as int],
        ));
        i = i + 1;
    }
    assert(no_dotdot@.skip(lo as int) == no_dotdot@.subrange(lo as int, no_dotdot@.len() as int));
    out
}

/// The stem of a file name, as `Path::file_stem` returns it.
pub uninterp spec fn file_stem_of(name: Seq<char>) -> Option<Seq<char>>;

/// The extension of a file name, as `Path::extension` returns it.
pub uninterp spec fn extension_of(name: Seq<char>) -> Option<Seq<char>>;

/// A file name with no path structure: not empty, not `.` or `..`, and
/// without `/`, `\\` or `:`.
pub open spec fn plain_file_name(name: Seq<char>) -> bool {
    &&& name.len() > 0
    &&& name != seq!['.']
    &&& name != seq!['.', '.']
    &&& forall|i: int| 0 <= i < name.len() ==> is_not_separator(#[trigger] name[i])
}

/// The index of the last `.` of `s`, if any.
pub open spec fn last_dot(s: Seq<char>) -> Option<int>
    decreases s.len(),
{
    if s.len() == 0 {
        None
    } else if s.last() == '.' {
        Some(s.len() - 1)
    } else {
        last_dot(s.drop_last())
    }
}

/// The stem of a plain file name, as `Path::file_stem` documents it: the
/// whole name when it has no `.` or only a leading one, else the part before
/// the last `.`.
pub open spec fn plain_stem(name: Seq<char>) -> Seq<char> {
    match last_dot(name) {
        Some(k) => if k == 0 {
            name
        } else {
            name.take(k)
        },
        None => name,
    }
}

/// The extension of a plain file name, as `Path::extension` documents it:
/// none when the name has no `.` or only a leading one, else the part after
/// the last `.`.
pub open spec fn plain_extension(name: Seq<char>) -> Option<Seq<char>> {
    match last_dot(name) {
        Some(k) => if k == 0 {
            None
        } else {
            Some(name.skip(k + 1))
        },
        None => None,
    }
}

/// `Path::file_stem` on a name given as a string: its result is named
/// `file_stem_of`, and for a plain file name it is the documented stem.
#[verifier::external_body]
fn path_file_stem(name: &str) -> (r: Option<String>)
    ensures
        r matches Some(x) ==> file_stem_of(name@) == Some(x@),
        r is None ==> file_stem_of(name@) is None,
        r is None ==> !plain_file_name(name@),
        r matches Some(x) ==> (plain_file_name(name@) ==> x@ == plain_stem(name@)),
{
    Path::new(name).file_stem().map(|s| s.to_string_lossy().to_string())
}

/// `Path::extension` on a name given as a string: its result is named
/// `extension_of`, and for a plain file name it is the documented extension.
#[verifier::external_body]
fn path_extension(name: &str) -> (r: Option<String>)
    ensures
        r matches Some(x) ==> extension_of(name@) == Some(x@),
        r is None ==> extension_of(name@) is None,
        r is None && plain_file_name(name@) ==> plain_extension(name@) is None,
        r matches Some(x) ==> (plain_file_name(name@) ==> plain_extension(name@) == Some(x@)),
{
    Path::new(name).extension().map(|s| s.to_string_lossy().to_string())
}

/// The decimal digit `d` as a character.
pub open spec fn digit_char(d: nat) -> char {
    (48 + d) as char
}

/// The decimal representation of `n`, without leading zeros.
pub open spec fn decimal(n: nat) -> Seq<char>
    decreases n,
{
    if n < 10 {
        seq![digit_char(n)]
    } else {
        decimal(n / 10).push(digit_char(n % 10))
    }
}

/// Formats `n` in decimal.
pub fn decimal_chars(n: u64) -> (r: Vec<char>)
    ensures
        r@ == decimal(n as nat),
    decreases n,
{
    let d = (n % 10) as u8;
    let c = (48u8 + d) as char;
    if n < 10 {
        let mut r: Vec<char> = Vec::new();
        r.push(c);
        r
    } else {
        let mut r = decimal_chars(n / 10);
        r.push(c);
        r
    }
}

/// The stem part of a numbered name: the file stem, or nothing.
pub open spec fn stem_part(name: Seq<char>) -> Seq<char> {
    match file_stem_of(name) {
        Some(s) => s,
        None => Seq::empty(),
    }
}

/// The extension part of a numbered name: `.` and the extension, or nothing.
pub open spec fn extension_part(name: Seq<char>) -> Seq<char> {
    match extension_of(name) {
        Some(e) => seq!['.'] + e,
        None => Seq::empty(),
    }
}

/// The name tried at attempt `counter` when placing `filename`: the name
/// itself first, then `stem_counter.ext` for counters `1..=COLLISION_LIMIT`;
/// `None` once the attempts are used up.
pub open spec fn collision_name(filename: Seq<char>, counter: nat) -> Option<Seq<char>> {
    if counter == 0 {
        Some(filename)
    } else if counter <= COLLISION_LIMIT {
        Some(stem_part(filename) + seq!['_'] + decimal(counter) + extension_part(filename))
    } else {
        None
    }
}

/// The number a string of decimal digits stands for.
pub open spec fn digits_value(s: Seq<char>) -> int
    decreases s.len(),
{
    if s.len() == 0 {
        0
    } else {
        digits_value(s.drop_last()) * 10 + ((s.last() as int) - 48)
    }
}

/// The decimal representation of `n` stands for `n`, and is not empty.
pub proof fn lemma_decimal_value(n: nat)
    ensures
        digits_value(decimal(n)) == n,
        decimal(n).len() >= 1,
    decreases n,
{
    if n >= 10 {
        lemma_decimal_value(n / 10);
        let d = decimal(n);
        assert(d.drop_last() == decimal(n / 10));
        assert(d.last() == digit_char(n % 10));
        assert((digit_char(n % 10) as int) == 48 + n % 10);
        assert(d.len() >= 1);
        assert(digits_value(d) == digits_value(d.drop_last()) * 10 + ((d.last() as int) - 48));
        assert(digits_value(d.drop_last()) == n / 10);
        assert((n / 10) * 10 + n % 10 == n);
    } else {
        let d = decimal(n);
        assert(d.drop_last() =~= Seq::<char>::empty());
        assert((digit_char(n) as int) == 48 + n);
        assert(digits_value(d) == digits_value(d.drop_last()) * 10 + ((d.last() as int) - 48));
    }
}

/// Different numbers have different decimal representations.
pub proof fn lemma_decimal_injective(a: nat, b: nat)
    requires
        a != b,
    ensures
        decimal(a) != decimal(b),
{
    lemma_decimal_value(a);
    lemma_decimal_value(b);
}

/// `p + m1 + q == p + m2 + q` only when `m1 == m2`.
proof fn lemma_middle_equal(p: Seq<char>, m1: Seq<char>, m2: Seq<char>, q: Seq<char>)
    requires
        p + m1 + q == p + m2 + q,
    ensures
        m1 == m2,
{
    let a = p + m1 + q;
    let b = p + m2 + q;
    assert(a.len() == (p + m1).len() + q.len());
    assert(b.len() == (p + m2).len() + q.len());
    assert(m1.len() == m2.len());
    assert forall|i: int| 0 <= i < m1.len() implies m1[i] == m2[i] by {
        assert(a[p.len() + i] == (p + m1)[p.len() + i]);
        assert(b[p.len() + i] == (p + m2)[p.len() + i]);
    }
    assert(m1 =~= m2);
}

/// `stem_counter.ext` for a plain file name, with the documented stem and
/// extension.
pub open spec fn numbered_plain_name(name: Seq<char>, counter: nat) -> Seq<char> {
    plain_stem(name) + seq!['_'] + decimal(counter) + match plain_extension(name) {
        Some(e) => seq!['.'] + e,
        None => Seq::<char>::empty(),
    }
}

/// A plain file name is its documented stem followed by `.` and its
/// documented extension, when it has one.
pub proof fn lemma_plain_name_parts(name: Seq<char>)
    ensures
        name == plain_stem(name) + match plain_extension(name) {
            Some(e) => seq!['.'] + e,
            None => Seq::<char>::empty(),
        },
{
    lemma_last_dot(name);
    if let Some(k) = last_dot(name) {
        if k != 0 {
            assert(name =~= name.take(k) + (seq!['.'] + name.skip(k + 1)));
        }
    }
}

/// `last_dot` gives the index of a `.` of the string.
proof fn lemma_last_dot(s: Seq<char>)
    ensures
        last_dot(s) matches Some(k) ==> 0 <= k < s.len() && s[k] == '.',
    decreases s.len(),
{
    if s.len() > 0 && s.last() != '.' {
        lemma_last_dot(s.drop_last());
    }
}

/// The names tried for one file name never repeat: the numbered names of
/// different counters differ, and for a plain file name no numbered name is
/// the name itself.
pub proof fn lemma_collision_names_distinct(filename: Seq<char>, c1: nat, c2: nat)
    requires
        c1 != c2,
        c1 <= COLLISION_LIMIT,
        c2 <= COLLISION_LIMIT,
        c1 == 0 || c2 == 0 ==> plain_file_name(filename),
    ensures
        c1 >= 1 && c2 >= 1 ==> collision_name(filename, c1) != collision_name(filename, c2),
        plain_file_name(filename) && c1 >= 1 ==> numbered_plain_name(filename, c1) != filename,
        plain_file_name(filename) && c1 >= 1 && c2 >= 1 ==> numbered_plain_name(filename, c1)
            != numbered_plain_name(filename, c2),
{
    lemma_decimal_injective(c1, c2);
    lemma_decimal_value(c1);
    if c1 >= 1 && c2 >= 1 {
        if collision_name(filename, c1) == collision_name(filename, c2) {
            lemma_middle_equal(
                stem_part(filename) + seq!['_'],
                decimal(c1),
                decimal(c2),
                extension_part(filename),
            );
        }
    }
    if plain_file_name(filename) && c1 >= 1 {
        lemma_plain_name_parts(filename);
        let e = match plain_extension(filename) {
            Some(e) => seq!['.'] + e,
            None => Seq::<char>::empty(),
        };
        assert(numbered_plain_name(filename, c1).len() == filename.len() + 1 + decimal(c1).len());
        if c2 >= 1 && numbered_plain_name(filename, c1) == numbered_plain_name(filename, c2) {
            lemma_middle_equal(plain_stem(filename) + seq!['_'], decimal(c1), decimal(c2), e);
        }
    }
}

/// The name to try at attempt `counter` when `filename` may already exist
/// in the destination folder. Whoever checks the folder tries the counters
/// `0, 1, 2, ...` in turn and takes the first name that is free; `None` means
/// that every attempt has been used and the collision cannot be resolved.
pub fn resolve_collision(filename: &str, counter: u32) -> (r: Option<String>)
    ensures
        r matches Some(n) ==> collision_name(filename@, counter as nat) == Some(n@),
        r is None ==> collision_name(filename@, counter as nat) is None,
        r is None <==> counter > COLLISION_LIMIT,
        counter == 0 ==> (r matches Some(n) && n@ == filename@),
        plain_file_name(filename@) && 1 <= counter <= COLLISION_LIMIT ==> (r matches Some(n) && n@
            == numbered_plain_name(filename@, counter as nat)),
{
    if counter == 0 {
        let mut s = String::new();
        s.append(filename);
        return Some(s);
    }
    if counter > COLLISION_LIMIT {
        return None;
    }
    let stem = match path_file_stem(filename) {
        Some(s) => s,
        None => String::new(),
    };
    let mut out = String::new();
    out.append(stem.as_str());
    push_char(&mut out, '_');
    let digits = decimal_chars(counter as u64);
    let digits_str = string_of(&digits);
    out.append(digits_str.as_str());
    match path_extension(filename) {
        Some(e) => {
            push_char(&mut out, '.');
            out.append(e.as_str());
        },
        None => {},
    }
    assert(out@ == stem_part(filename@) + seq!['_'] + decimal(counter as nat) + extension_part(
        filename@,
    ));
    Some(out)
}

/// The rest of `target` after `base`, as `Path::strip_prefix` gives it;
/// `None` when `target` does not start with `base`.
pub uninterp spec fn stripped_rest(target: Seq<char>, base: Seq<char>) -> Option<Seq<char>>;

/// For each component of a path, as `Path::components` gives them, whether
/// it is `..`.
pub uninterp spec fn parent_flags(path: Seq<char>) -> Seq<bool>;

/// For a target path under a base path, which components of the rest of
/// the target are `..`; `None` when the target is not under the base.
pub open spec fn relative_parent_flags(base: Seq<char>, target: Seq<char>) -> Option<Seq<bool>> {
    match stripped_rest(target, base) {
        Some(rest) => Some(parent_flags(rest)),
        None => None,
    }
}

/// `Path::strip_prefix`: its result is named `stripped_rest`.
#[verifier::external_body]
fn path_strip_prefix(target: &str, base: &str) -> (r: Option<String>)
    ensures
        r matches Some(x) ==> stripped_rest(target@, base@) == Some(x@),
        r is None ==> stripped_rest(target@, base@) is None,
{
    Path::new(target).strip_prefix(base).ok().map(|rest| rest.to_string_lossy().to_string())
}

/// `Path::components`, each component read as whether it is `..`: its
/// result is named `parent_flags`.
#[verifier::external_body]
fn path_parent_flags(path: &str) -> (r: Vec<bool>)
    ensures
        r@ == parent_flags(path@),
{
    Path::new(path).components().map(|c| matches!(c, Component::ParentDir)).collect()
}

/// How a target path stands to a base path, read from the paths alone.
#[derive(Debug, Clone, Copy, PartialEq, Eq, Structural)]
pub enum RelativePath {
    /// The target is under the base and does not climb out of it.
    Inside,
    /// The target is under the base but a `..` component climbs out.
    Escapes,
    /// The target does not start with the base.
    NotUnderBase,
}

/// Reads how `target` stands to `base` from the paths alone: not under it,
/// under it, or under it with a `..` that climbs out.
pub fn relative_path_check(base: &str, target: &str) -> (r: RelativePath)
    ensures
        r == match relative_parent_flags(base@, target@) {
            None => RelativePath::NotUnderBase,
            Some(flags) => if flags.contains(true) {
                RelativePath::Escapes
            } else {
                RelativePath::Inside
            },
        },
{
    match path_strip_prefix(target, base) {
        None => RelativePath::NotUnderBase,
        Some(rest) => {
            let flags = path_parent_flags(rest.as_str());
            let mut i: usize = 0;
            while i < flags.len()
                invariant
                    i <= flags.len(),
                    relative_parent_flags(base@, target@) == Some(flags@),
                    forall|j: int| 0 <= j < i ==> !flags@[j],
                decreases flags.len() - i,
            {
                if flags[i] {
                    assert(flags@.contains(true)) by {
                        assert(flags@[i as int]);
                    }
                    return RelativePath::Escapes;
                }
                i = i + 1;
            }
            RelativePath::Inside
        },
    }
}

/// Whether `path` starts with `base`, whole component by whole component,
/// as `Path::starts_with` decides it.
pub uninterp spec fn path_prefix(path: Seq<char>, base: Seq<char>) -> bool;

/// `Path::starts_with`: its result is named `path_prefix`.
#[verifier::external_body]
fn path_starts_with(path: &str, base: &str) -> (r: bool)
    ensures
        r == path_prefix(path@, base@),
{
    Path::new(path).starts_with(base)
}

/// The message that reports a target outside its base.
pub open spec fn outside_message(target: Seq<char>, base: Seq<char>) -> Seq<char> {
    "不正なパスが検出されました: '"@ + target + "' は '"@ + base + "' の外部です"@
}

/// Whether `target` stays inside `base`, read from the paths and, for a
/// target that is not under the base, from the two paths as the file system
/// resolves them.
pub open spec fn within_dir(
    base: Seq<char>,
    target: Seq<char>,
    canonical_base: Seq<char>,
    canonical_target: Option<Seq<char>>,
) -> bool {
    match relative_parent_flags(base, target) {
        Some(flags) => !flags.contains(true),
        None => match canonical_target {
            Some(ct) => path_prefix(ct, canonical_base),
            None => false,
        },
    }
}

/// Checks that `target` stays inside `base`, also when `target` does not
/// exist yet. A target under the base is inside unless a `..` component
/// climbs out of it; a target that is not under the base is inside only
/// when it exists (`canonical_target`, the target as the file system resolves
/// it) and starts with the resolved base (`canonical_base`).
pub fn validate_path_within_dir(
    base: &str,
    target: &str,
    canonical_base: &str,
    canonical_target: Option<&str>,
) -> (r: Result<(), String>)
    ensures
        r is Ok <==> within_dir(base@, target@, canonical_base@, opt_str_view(canonical_target)),
        r matches Err(m) ==> m@ == outside_message(target@, base@),
{
    let inside = match relative_path_check(base, target) {
        RelativePath::Inside => true,
        RelativePath::Escapes => false,
        RelativePath::NotUnderBase => match canonical_target {
            Some(ct) => path_starts_with(ct, canonical_base),
            None => false,
        },
    };
    if inside {
        Ok(())
    } else {
        let mut m = String::new();
        m.append("不正なパスが検出されました: '");
        m.append(target);
        m.append("' は '");
        m.append(base);
        m.append("' の外部です");
        Err(m)
    }
}

/// The characters of an optional string.
pub open spec fn opt_str_view(s: Option<&str>) -> Option<Seq<char>> {
    match s {
        Some(t) => Some(t@),
        None => None,
    }
}

} // verus!
