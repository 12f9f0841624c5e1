//! Tags: the `[...]` part of a file name that says where a file belongs,
//! and the corrections applied to a file name when it is placed.
use vstd::prelude::*;
use crate::fs_utils::{
    is_not_separator, lemma_sanitized_name_is_safe, not_path_separator, sanitize_folder_name, sanitized_name,
};
use crate::text::{
    char_from_u32, char_is_whitespace, chars_of, find_char_from, first_from, has_pair,
    is_ascii_digit_char, is_whitespace_char, lemma_first_from_at, lemma_first_from_bounds,
    lemma_keep_identity, pair_at, replace_pair_repeatedly, replace_pair_until_gone, slice_chars,
    string_of, trim, trim_chars, trim_end, trim_start,
};

verus! {

/// The tag of a file name: the text between the first `[` and the first `]`
/// after it, trimmed and sanitised; `None` when there is no such pair or
/// nothing is left.
pub open spec fn tag_of(name: Seq<char>) -> Option<Seq<char>> {
    match first_from(name, 0, '[') {
        None => None,
        Some(start) => match first_from(name, start, ']') {
            None => None,
            Some(end) => {
                let raw = trim(name.subrange(start + 1, end));
                if raw.len() == 0 || sanitized_name(raw).len() == 0 {
                    None
                } else {
                    Some(sanitized_name(raw))
                }
            },
        },
    }
}

/// A tag is never empty and cannot leave its folder: no path separator, no
/// `..`, no leading dot.
pub proof fn lemma_tag_is_safe(name: Seq<char>)
    ensures
        tag_of(name) matches Some(t) ==> t.len() > 0
            && (forall|i: int| 0 <= i < t.len() ==> is_not_separator(#[trigger] t[i]))
            && !has_pair(t, '.')
            && t[0] != '.',
{
    if let Some(start) = first_from(name, 0, '[') {
        if let Some(end) = first_from(name, start, ']') {
            lemma_sanitized_name_is_safe(trim(name.subrange(start + 1, end)));
        }
    }
}

/// Extracts the tag of a file name: the text between the first `[` and the
/// next `]`, trimmed, without path separators, `..` or leading dots.
pub fn extract_tag(filename: &str) -> (r: Option<String>)
    ensures
        r matches Some(t) ==> tag_of(filename@) == Some(t@),
        r is None ==> tag_of(filename@) is None,
{
    let chars = chars_of(filename);
    let start = match find_char_from(&chars, 0, '[') {
        Some(s) => s,
        None => return None,
    };
    proof {
        lemma_first_from_bounds(chars@, 0, '[');
    }
    let end = match find_char_from(&chars, start, ']') {
        Some(e) => e,
        None => return None,
    };
    proof {
        lemma_first_from_bounds(chars@, start as int, ']');
    }
    let inner = slice_chars(&chars, start + 1, end);
    let raw = trim_chars(&inner);
    if raw.len() == 0 {
        return None;
    }
    let raw_str = string_of(&raw);
    let sanitized = sanitize_tag(raw_str.as_str());
    if sanitized.as_str().unicode_len() == 0 {
        None
    } else {
        Some(sanitized)
    }
}

/// A tag without path separators, `..` or leading dots.
fn sanitize_tag(tag: &str) -> (r: String)
    ensures
        r@ == sanitized_name(tag@),
{
    sanitize_folder_name(tag)
}

/// Full-width digits U+FF10..=U+FF19 mapped to `0`..=`9`; other characters unchanged.
pub open spec fn halfwidth_digit(c: char) -> char {
    if 0xFF10 <= (c as u32) <= 0xFF19 {
        ((c as u32) - 0xFF10 + 0x30) as char
    } else {
        c
    }
}

/// A full-width digit as its half-width digit; any other character as it is.
fn normalize_fullwidth_digit(c: char) -> (r: char)
    ensures
        r == halfwidth_digit(c),
{
    let code = c as u32;
    if 0xFF10 <= code && code <= 0xFF19 {
        match char_from_u32(code - 0xFF10 + 0x30) {
            Some(d) => d,
            None => c,
        }
    } else {
        c
    }
}

/// `s` without its tag: the first `[` up to and including the first `]`
/// after it removed, runs of spaces collapsed, and the result trimmed;
/// `s` unchanged when it has no such pair.
pub open spec fn without_tag(s: Seq<char>) -> Seq<char> {
    match first_from(s, 0, '[') {
        None => s,
        Some(start) => match first_from(s, start, ']') {
            None => s,
            Some(end) => trim(
                replace_pair_until_gone(s.take(start) + s.skip(end + 1), ' ', seq![' ']),
            ),
        },
    }
}

/// The first pass of digit unification: full-width digits made half-width,
/// and the whitespace just before each digit removed.
pub open spec fn digits_joined_left(s: Seq<char>) -> Seq<char>
    decreases s.len(),
{
    if s.len() == 0 {
        Seq::empty()
    } else {
        let prev = digits_joined_left(s.drop_last());
        let c = halfwidth_digit(s.last());
        if is_ascii_digit_char(c) {
            trim_end(prev).push(c)
        } else {
            prev.push(c)
        }
    }
}

/// A digit, half-width or full-width.
pub open spec fn is_digit_like(c: char) -> bool {
    is_ascii_digit_char(halfwidth_digit(c))
}

/// Whether `s`, apart from its trailing whitespace, ends in a digit.
pub open spec fn ends_in_digit(s: Seq<char>) -> bool {
    trim_end(s).len() > 0 && is_digit_like(trim_end(s).last())
}

/// The second pass of digit unification: every whitespace character that
/// follows a digit, directly or through other whitespace, removed.
pub open spec fn digits_joined_right(s: Seq<char>) -> Seq<char>
    decreases s.len(),
{
    if s.len() == 0 {
        Seq::empty()
    } else if is_whitespace_char(s.last()) && ends_in_digit(s.drop_last()) {
        digits_joined_right(s.drop_last())
    } else {
        digits_joined_right(s.drop_last()).push(s.last())
    }
}

/// A full-width digit U+FF10..=U+FF19.
pub open spec fn is_fullwidth_digit(c: char) -> bool {
    0xFF10 <= (c as u32) <= 0xFF19
}

/// No character of `r` is a full-width digit.
pub open spec fn no_fullwidth_digit(r: Seq<char>) -> bool {
    forall|i: int| 0 <= i < r.len() ==> !is_fullwidth_digit(#[trigger] r[i])
}

/// No whitespace stands directly after an ASCII digit of `r`.
pub open spec fn no_space_after_digit(r: Seq<char>) -> bool {
    forall|i: int| 0 <= i < r.len() - 1 && is_ascii_digit_char(#[trigger] r[i]) ==> !is_whitespace_char(r[i + 1])
}

/// No whitespace stands directly before an ASCII digit of `r`.
pub open spec fn no_space_before_digit(r: Seq<char>) -> bool {
    forall|i: int| 0 < i < r.len() && is_ascii_digit_char(#[trigger] r[i]) ==> !is_whitespace_char(r[i - 1])
}

/// Whitespace is no digit, and `halfwidth_digit` never gives a full-width digit.
proof fn lemma_char_classes(c: char)
    ensures
        is_whitespace_char(c) ==> !is_digit_like(c) && !is_fullwidth_digit(c),
        !is_fullwidth_digit(halfwidth_digit(c)),
        is_ascii_digit_char(c) ==> is_digit_like(c),
{
    if 0xFF10 <= (c as u32) <= 0xFF19 {
        assert((halfwidth_digit(c) as u32) == (c as u32) - 0xFF10 + 0x30);
    }
}

/// What removing trailing whitespace keeps: a prefix that does not end in whitespace.
proof fn lemma_trim_end_prefix(s: Seq<char>)
    ensures
        trim_end(s) == s.take(trim_end(s).len() as int),
        trim_end(s).len() <= s.len(),
        trim_end(s).len() > 0 ==> !is_whitespace_char(trim_end(s).last()),
    decreases s.len(),
{
    if s.len() > 0 && is_whitespace_char(s.last()) {
        lemma_trim_end_prefix(s.drop_last());
        let k = trim_end(s).len() as int;
        assert(s.drop_last().take(k) == s.take(k));
    } else {
        assert(s.take(s.len() as int) == s);
    }
}

/// How `ends_in_digit` moves when a character is appended.
proof fn lemma_ends_in_digit_push(t: Seq<char>, c: char)
    ensures
        ends_in_digit(t.push(c)) == if is_whitespace_char(c) {
            ends_in_digit(t)
        } else {
            is_digit_like(c)
        },
{
    assert(t.push(c).drop_last() == t);
    assert(t.push(c).last() == c);
}

/// The first pass leaves no full-width digit and no whitespace directly
/// before an ASCII digit.
proof fn lemma_digits_joined_left(s: Seq<char>)
    ensures
        no_fullwidth_digit(digits_joined_left(s)),
        no_space_before_digit(digits_joined_left(s)),
    decreases s.len(),
{
    if s.len() > 0 {
        let prev = digits_joined_left(s.drop_last());
        lemma_digits_joined_left(s.drop_last());
        let c = halfwidth_digit(s.last());
        lemma_char_classes(s.last());
        let l = digits_joined_left(s);
        if is_ascii_digit_char(c) {
            lemma_trim_end_prefix(prev);
            let p = trim_end(prev);
            assert(l == p.push(c));
            assert forall|i: int| 0 <= i < l.len() implies !is_fullwidth_digit(#[trigger] l[i]) by {
                if i < p.len() {
                    assert(l[i] == prev[i]);
                }
            }
            assert forall|i: int| 0 < i < l.len() && is_ascii_digit_char(#[trigger] l[i]) implies !is_whitespace_char(l[i - 1]) by {
                if i < p.len() {
                    assert(l[i] == prev[i]);
                    assert(l[i - 1] == prev[i - 1]);
                } else {
                    assert(l[i - 1] == p.last());
                }
            }
        } else {
            assert(l == prev.push(c));
            assert forall|i: int| 0 <= i < l.len() implies !is_fullwidth_digit(#[trigger] l[i]) by {
                if i < prev.len() {
                    assert(l[i] == prev[i]);
                }
            }
            assert forall|i: int| 0 < i < l.len() && is_ascii_digit_char(#[trigger] l[i]) implies !is_whitespace_char(l[i - 1]) by {
                assert(i < prev.len());
                assert(l[i] == prev[i]);
                assert(l[i - 1] == prev[i - 1]);
            }
        }
    }
}

/// The second pass leaves no whitespace directly after a digit, keeps the
/// absence of full-width digits and of whitespace before a digit, keeps the
/// last character when it is not whitespace, and ends in a digit exactly
/// when its input does apart from trailing whitespace.
proof fn lemma_digits_joined_right(t: Seq<char>)
    requires
        no_fullwidth_digit(t),
        no_space_before_digit(t),
    ensures
        (digits_joined_right(t).len() > 0 && is_digit_like(digits_joined_right(t).last())) == ends_in_digit(t),
        forall|i: int| 0 <= i < digits_joined_right(t).len() - 1 && is_digit_like(#[trigger] digits_joined_right(t)[i])
            ==> !is_whitespace_char(digits_joined_right(t)[i + 1]),
        t.len() > 0 && !is_whitespace_char(t.last()) ==> digits_joined_right(t).len() > 0
            && digits_joined_right(t).last() == t.last(),
        no_fullwidth_digit(digits_joined_right(t)),
        no_space_before_digit(digits_joined_right(t)),
    decreases t.len(),
{
    if t.len() == 0 {
        assert(trim_end(t).len() == 0);
    } else {
        let tp = t.drop_last();
        let c = t.last();
        assert forall|i: int| 0 <= i < tp.len() implies !is_fullwidth_digit(#[trigger] tp[i]) by {
            assert(tp[i] == t[i]);
        }
        assert forall|i: int| 0 < i < tp.len() && is_ascii_digit_char(#[trigger] tp[i]) implies !is_whitespace_char(tp[i - 1]) by {
            assert(tp[i] == t[i]);
            assert(tp[i - 1] == t[i - 1]);
        }
        lemma_digits_joined_right(tp);
        lemma_ends_in_digit_push(tp, c);
        assert(tp.push(c) == t);
        lemma_char_classes(c);
        let op = digits_joined_right(tp);
        let o = digits_joined_right(t);
        assert(!is_fullwidth_digit(t[t.len() - 1]));
        if is_whitespace_char(c) && ends_in_digit(tp) {
            assert(o == op);
        } else {
            assert(o == op.push(c));
            assert forall|i: int| 0 <= i < o.len() - 1 && is_digit_like(#[trigger] o[i]) implies !is_whitespace_char(o[i + 1]) by {
                assert(o[i] == op[i]);
                if i + 1 < op.len() {
                    assert(o[i + 1] == op[i + 1]);
                } else {
                    assert(op.last() == op[i]);
                }
            }
            assert forall|i: int| 0 <= i < o.len() implies !is_fullwidth_digit(#[trigger] o[i]) by {
                if i < op.len() {
                    assert(o[i] == op[i]);
                }
            }
            assert forall|i: int| 0 < i < o.len() && is_ascii_digit_char(#[trigger] o[i]) implies !is_whitespace_char(o[i - 1]) by {
                if i < op.len() {
                    assert(o[i] == op[i]);
                    assert(o[i - 1] == op[i - 1]);
                } else {
                    assert(is_ascii_digit_char(t[t.len() - 1]));
                    assert(!is_whitespace_char(t[t.len() - 2]));
                    assert(tp.last() == t[t.len() - 2]);
                    assert(o[i - 1] == op.last());
                }
            }
        }
    }
}

/// With digit unification, a file name keeps no full-width digit and no
/// whitespace directly before or after an ASCII digit.
pub proof fn lemma_digits_unified(s: Seq<char>)
    ensures
        no_fullwidth_digit(digits_joined_right(digits_joined_left(s))),
        no_space_before_digit(digits_joined_right(digits_joined_left(s))),
        no_space_after_digit(digits_joined_right(digits_joined_left(s))),
{
    lemma_digits_joined_left(s);
    let l = digits_joined_left(s);
    lemma_digits_joined_right(l);
    let r = digits_joined_right(l);
    assert forall|i: int| 0 <= i < r.len() - 1 && is_ascii_digit_char(#[trigger] r[i]) implies !is_whitespace_char(r[i + 1]) by {
        lemma_char_classes(r[i]);
    }
}

/// The corrected form of a file name under the two options.
pub open spec fn corrected_filename(s: Seq<char>, remove_tag: bool, normalize_numbers: bool) -> Seq<char> {
    let a = if remove_tag { without_tag(s) } else { s };
    if normalize_numbers { digits_joined_right(digits_joined_left(a)) } else { a }
}

/// Corrects a file name: with `remove_tag`, the `[tag]` part is cut out,
/// runs of spaces are collapsed and the ends trimmed; with
/// `normalize_numbers`, full-width digits become half-width and the
/// whitespace around digits is removed.
pub fn correct_filename(filename: &str, remove_tag: bool, normalize_numbers: bool) -> (r: String)
    ensures
        r@ == corrected_filename(filename@, remove_tag, normalize_numbers),
        normalize_numbers ==> no_fullwidth_digit(r@) && no_space_before_digit(r@) && no_space_after_digit(r@),
{
    proof {
        lemma_digits_unified(if remove_tag { without_tag(filename@) } else { filename@ });
    }
    let mut result = chars_of(filename);
    if remove_tag {
        result = remove_tag_part(result);
    }
    if normalize_numbers {
        let joined = join_digits_left(&result);
        result = join_digits_right(&joined);
    }
    string_of(&result)
}

/// Removing the tag cuts out exactly the brackets and what they enclose: a
/// name made of a part without `[`, then `[`, a tag without `]`, `]` and a
/// rest becomes the part followed by the whole rest, when neither the part
/// nor the rest holds whitespace.
pub proof fn lemma_remove_tag_keeps_rest(prefix: Seq<char>, tag: Seq<char>, rest: Seq<char>)
    requires
        forall|i: int| 0 <= i < prefix.len() ==> #[trigger] prefix[i] != '[' && !is_whitespace_char(prefix[i]),
        forall|i: int| 0 <= i < tag.len() ==> #[trigger] tag[i] != ']',
        forall|i: int| 0 <= i < rest.len() ==> !is_whitespace_char(#[trigger] rest[i]),
    ensures
        corrected_filename(prefix + seq!['['] + tag + seq![']'] + rest, true, false) == prefix + rest,
{
    let s = prefix + seq!['['] + tag + seq![']'] + rest;
    let start = prefix.len() as int;
    let end = start + 1 + tag.len();
    assert forall|j: int| 0 <= j < start implies s[j] != '[' by {
        assert(s[j] == prefix[j]);
    }
    assert(s[start] == '[');
    lemma_first_from_at(s, 0, start, '[');
    assert forall|j: int| start <= j < end implies s[j] != ']' by {
        if j > start {
            assert(s[j] == tag[j - start - 1]);
        }
    }
    assert(s[end] == ']');
    lemma_first_from_at(s, start, end, ']');
    assert(s.take(start) == prefix);
    assert(s.skip(end + 1) == rest);
    let x = prefix + rest;
    assert forall|i: int| 0 <= i < x.len() implies !is_whitespace_char(#[trigger] x[i]) by {
        if i < prefix.len() {
            assert(x[i] == prefix[i]);
        } else {
            assert(x[i] == rest[i - prefix.len()]);
        }
    }
    if has_pair(x, ' ') {
        let i = choose|i: int| 0 <= i < x.len() - 1 && #[trigger] pair_at(x, ' ', i);
        assert(!is_whitespace_char(x[i]));
    }
    assert(replace_pair_until_gone(x, ' ', seq![' ']) == x);
    assert(trim_start(x) == x);
    assert(trim_end(x) == x);
}

/// A tag between the first `[` and the next `]` is found as written when it
/// is clean: not empty, and without whitespace, path separators or dots.
pub proof fn lemma_clean_tag_found(prefix: Seq<char>, tag: Seq<char>, rest: Seq<char>)
    requires
        forall|i: int| 0 <= i < prefix.len() ==> #[trigger] prefix[i] != '[',
        tag.len() > 0,
        forall|i: int| 0 <= i < tag.len() ==> #[trigger] tag[i] != ']' && tag[i] != '.' && is_not_separator(tag[i])
            && !is_whitespace_char(tag[i]),
    ensures
        tag_of(prefix + seq!['['] + tag + seq![']'] + rest) == Some(tag),
{
    let s = prefix + seq!['['] + tag + seq![']'] + rest;
    let start = prefix.len() as int;
    let end = start + 1 + tag.len();
    assert forall|j: int| 0 <= j < start implies s[j] != '[' by {
        assert(s[j] == prefix[j]);
    }
    assert(s[start] == '[');
    lemma_first_from_at(s, 0, start, '[');
    assert forall|j: int| start <= j < end implies s[j] != ']' by {
        if j > start {
            assert(s[j] == tag[j - start - 1]);
        }
    }
    assert(s[end] == ']');
    lemma_first_from_at(s, start, end, ']');
    assert(s.subrange(start + 1, end) == tag);
    assert(trim_start(tag) == tag);
    assert(trim_end(tag) == tag);
    assert forall|i: int| 0 <= i < tag.len() implies not_path_separator()(#[trigger] tag[i]) by {
        assert(is_not_separator(tag[i]));
    }
    lemma_keep_identity(tag, not_path_separator());
    if has_pair(tag, '.') {
        let i = choose|i: int| 0 <= i < tag.len() - 1 && #[trigger] pair_at(tag, '.', i);
        assert(tag[i] != '.');
    }
    assert(replace_pair_until_gone(tag, '.', Seq::empty()) == tag);
    assert(tag[0] != '.');
    assert(sanitized_name(tag) == tag);
}

/// With both options off, a file name is left as it is.
pub proof fn lemma_no_correction_keeps_name(s: Seq<char>)
    ensures
        corrected_filename(s, false, false) == s,
{
}

/// The characters of a file name with its tag cut out (see `without_tag`).
fn remove_tag_part(v: Vec<char>) -> (r: Vec<char>)
    ensures
        r@ == without_tag(v@),
{
    let start = match find_char_from(&v, 0, '[') {
        Some(s) => s,
        None => return v,
    };
    proof {
        lemma_first_from_bounds(v@, 0, '[');
    }
    let end = match find_char_from(&v, start, ']') {
        Some(e) => e,
        None => return v,
    };
    proof {
        lemma_first_from_bounds(v@, start as int, ']');
    }
    let mut joined = slice_chars(&v, 0, start);
    let tail = slice_chars(&v, end + 1, v.len());
    for i in 0..tail.len()
        invariant
            joined@ == v@.take(start as int) + tail@.take(i as int),
    {
        joined.push(tail[i]);
        assert(tail@.take(i + 1) == tail@.take(i as int).push(tail@[i as int]));
    }
    assert(tail@.take(tail@.len() as int) == tail@);
    assert(v@.subrange(0, start as int) == v@.take(start as int));
    assert(v@.subrange(end + 1, v@.len() as int) == v@.skip(end + 1));
    let mut single: Vec<char> = Vec::new();
    single.push(' ');
    let collapsed = replace_pair_repeatedly(joined, ' ', &single);
    assert(single@ == seq![' ']);
    trim_chars(&collapsed)
}

/// The first pass of digit unification over the characters of a name.
fn join_digits_left(v: &Vec<char>) -> (r: Vec<char>)
    ensures
        r@ == digits_joined_left(v@),
{
    let mut chars: Vec<char> = Vec::new();
    for i in 0..v.len()
        invariant
            chars@ == digits_joined_left(v@.take(i as int)),
    {
        let normalized = normalize_fullwidth_digit(v[i]);
        let is_digit = '0' <= normalized && normalized <= '9';
        assert(v@.take(i + 1).drop_last() == v@.take(i as int));
        if is_digit && chars.len() > 0 {
            while chars.len() > 0 && char_is_whitespace(chars[chars.len() - 1])
                invariant
                    trim_end(digits_joined_left(v@.take(i as int))) == trim_end(chars@),
                decreases chars.len(),
            {
                let ghost before = chars@;
                chars.pop();
                assert(before.drop_last() == chars@);
            }
        }
        chars.push(normalized);
    }
    assert(v@.take(v@.len() as int) == v@);
    chars
}

/// The second pass of digit unification over the characters of a name.
fn join_digits_right(chars: &Vec<char>) -> (r: Vec<char>)
    ensures
        r@ == digits_joined_right(chars@),
{
    let mut out: Vec<char> = Vec::new();
    let mut after_digit = false;
    assert(trim_end(chars@.take(0)).len() == 0);
    for i in 0..chars.len()
        invariant
            out@ == digits_joined_right(chars@.take(i as int)),
            after_digit == ends_in_digit(chars@.take(i as int)),
    {
        let c = chars[i];
        let ghost pre = chars@.take(i + 1);
        assert(pre.drop_last() == chars@.take(i as int));
        assert(pre.last() == c);
        assert(chars@.take(i as int).push(c) == pre);
        proof {
            lemma_ends_in_digit_push(chars@.take(i as int), c);
            lemma_char_classes(c);
        }
        if !(char_is_whitespace(c) && after_digit) {
            out.push(c);
            let d = normalize_fullwidth_digit(c);
            after_digit = '0' <= d && d <= '9';
        }
    }
    assert(chars@.take(chars@.len() as int) == chars@);
    out
}

} // verus!
