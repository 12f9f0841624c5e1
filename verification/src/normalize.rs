//! Key normalisation: the form under which dictionary keys and tags are
//! compared, and the looser form used to detect similar names.
use vstd::prelude::*;
use unicode_normalization::UnicodeNormalization;
use crate::text::{
    char_from_u32, char_is_alphanumeric, chars_of, is_ascii_alnum, drop_whitespace, is_alphanumeric_char,
    is_whitespace_char, keep, lemma_keep_all, lemma_keep_step, not_whitespace, push_char, string_of,
};

verus! {

/// The NFKC normal form of a string, as `unicode_normalization`'s `nfkc` yields it.
pub uninterp spec fn nfkc_form(s: Seq<char>) -> Seq<char>;

/// The lowercase form of a string, as `str::to_lowercase` returns it.
pub uninterp spec fn lowercase_form(s: Seq<char>) -> Seq<char>;

/// Every character is ASCII.
pub open spec fn is_ascii_text(s: Seq<char>) -> bool {
    forall|i: int| 0 <= i < s.len() ==> (#[trigger] s[i] as u32) < 0x80
}

/// No character is an ASCII capital `A`..=`Z`.
pub open spec fn no_ascii_upper(s: Seq<char>) -> bool {
    forall|i: int| 0 <= i < s.len() ==> !('A' <= #[trigger] s[i] && s[i] <= 'Z')
}

/// `A`..=`Z` as `a`..=`z`; any other character as it is.
pub open spec fn ascii_lower_char(c: char) -> char {
    if 'A' <= c && c <= 'Z' {
        ((c as u32) + 32) as char
    } else {
        c
    }
}

/// Each character through `ascii_lower_char`.
pub open spec fn ascii_lowered(s: Seq<char>) -> Seq<char> {
    s.map_values(|c: char| ascii_lower_char(c))
}

/// `UnicodeNormalization::nfkc` on a string, collected: its result is named
/// `nfkc_form`. ASCII text is its own NFKC form: no ASCII character has a
/// decomposition, and all of them are starters.
#[verifier::external_body]
fn nfkc_string(s: &str) -> (r: String)
    ensures
        r@ == nfkc_form(s@),
        is_ascii_text(s@) ==> r@ == s@,
{
    s.nfkc().collect()
}

/// `str::to_lowercase`: its result is named `lowercase_form`. On ASCII text
/// it maps `A`..=`Z` to `a`..=`z` and leaves every other character alone,
/// as the Unicode lowercase mapping does for ASCII. No lowercase mapping
/// yields an ASCII capital, so the result holds none.
#[verifier::external_body]
fn lowercase_string(s: &str) -> (r: String)
    ensures
        r@ == lowercase_form(s@),
        is_ascii_text(s@) ==> r@ == ascii_lowered(s@),
        no_ascii_upper(r@),
{
    s.to_lowercase()
}

/// Characters a normalised key keeps: letters, digits, `(`, `)` and `,`.
pub open spec fn is_key_char(c: char) -> bool {
    is_alphanumeric_char(c) || c == '(' || c == ')' || c == ','
}

/// The characters a normalised key keeps, as a predicate.
pub open spec fn key_chars() -> spec_fn(char) -> bool {
    |c: char| is_key_char(c)
}

/// The normalised key of `s`: NFKC, lowercase, whitespace removed, and only
/// letters, digits, `(`, `)` and `,` kept.
pub open spec fn normalized(s: Seq<char>) -> Seq<char> {
    key_of_lowered(lowercase_form(nfkc_form(s)))
}

/// The key of text that is already lowercased: whitespace removed, and only
/// letters, digits, `(`, `)` and `,` kept.
pub open spec fn key_of_lowered(s: Seq<char>) -> Seq<char> {
    keep(keep(s, not_whitespace()), key_chars())
}

/// Characters that are not `(`, `)` or `,`.
pub open spec fn not_key_punct() -> spec_fn(char) -> bool {
    |c: char| c != '(' && c != ')' && c != ','
}

/// Full-width katakana U+30A1..=U+30F6 mapped to the hiragana 0x60 below; other characters unchanged.
pub open spec fn hiragana_of(c: char) -> char {
    if 0x30A1 <= (c as u32) <= 0x30F6 {
        ((c as u32) - 0x60) as char
    } else {
        c
    }
}

/// Each character of `s` through `hiragana_of`.
pub open spec fn map_hiragana(s: Seq<char>) -> Seq<char> {
    s.map_values(|c: char| hiragana_of(c))
}

/// What a kanji numeral stands for in Arabic digits; any other character stands for itself.
pub open spec fn kanji_digits(c: char) -> Seq<char> {
    if c == '一' { seq!['1'] }
    else if c == '二' { seq!['2'] }
    else if c == '三' { seq!['3'] }
    else if c == '四' { seq!['4'] }
    else if c == '五' { seq!['5'] }
    else if c == '六' { seq!['6'] }
    else if c == '七' { seq!['7'] }
    else if c == '八' { seq!['8'] }
    else if c == '九' { seq!['9'] }
    else if c == '十' { seq!['1', '0'] }
    else if c == '百' { seq!['1', '0', '0'] }
    else if c == '千' { seq!['1', '0', '0', '0'] }
    else if c == '万' { seq!['1', '0', '0', '0', '0'] }
    else { seq![c] }
}

/// Every kanji numeral of `s` replaced by its digits.
pub open spec fn replaced_kanji(s: Seq<char>) -> Seq<char>
    decreases s.len(),
{
    if s.len() == 0 {
        Seq::empty()
    } else {
        replaced_kanji(s.drop_last()) + kanji_digits(s.last())
    }
}

/// The similarity key of `s`: its normalised key without `(`, `)` and `,`,
/// katakana turned into hiragana, kanji numerals into digits.
pub open spec fn similarity_key(s: Seq<char>) -> Seq<char> {
    replaced_kanji(map_hiragana(keep(normalized(s), not_key_punct())))
}

/// A normalised key holds only letters, digits, `(`, `)` and `,`, and no whitespace.
pub proof fn lemma_normalized_chars(s: Seq<char>)
    ensures
        forall|i: int| 0 <= i < normalized(s).len() ==> is_key_char(#[trigger] normalized(s)[i])
            && !is_whitespace_char(normalized(s)[i]),
{
    let a = keep(lowercase_form(nfkc_form(s)), not_whitespace());
    lemma_keep_all(lowercase_form(nfkc_form(s)), not_whitespace());
    lemma_keep_all(a, key_chars());
    lemma_keep_subset(a, key_chars());
    assert forall|i: int| 0 <= i < normalized(s).len() implies is_key_char(#[trigger] normalized(s)[i])
        && !is_whitespace_char(normalized(s)[i]) by {
        assert(key_chars()(normalized(s)[i]));
        let j = choose|j: int| 0 <= j < a.len() && a[j] == normalized(s)[i];
        assert(not_whitespace()(a[j]));
    }
}

/// Every character `keep` keeps comes from the input.
pub proof fn lemma_keep_subset(s: Seq<char>, p: spec_fn(char) -> bool)
    ensures
        forall|i: int| 0 <= i < keep(s, p).len() ==> exists|j: int| 0 <= j < s.len() && s[j] == #[trigger] keep(s, p)[i],
    decreases s.len(),
{
    if s.len() > 0 {
        lemma_keep_subset(s.drop_last(), p);
        let r = keep(s.drop_last(), p);
        assert forall|i: int| 0 <= i < keep(s, p).len() implies exists|j: int| 0 <= j < s.len() && s[j] == #[trigger] keep(s, p)[i] by {
            if i < r.len() {
                assert(keep(s, p)[i] == r[i]);
                let j = choose|j: int| 0 <= j < s.drop_last().len() && s.drop_last()[j] == #[trigger] r[i];
                assert(s[j] == r[i]);
            } else {
                assert(s[s.len() - 1] == keep(s, p)[i]);
            }
        }
    }
}

/// A similarity key holds no `(`, `)` or `,`.
pub proof fn lemma_similarity_key_has_no_punctuation(s: Seq<char>)
    ensures
        forall|i: int| 0 <= i < similarity_key(s).len() ==> #[trigger] similarity_key(s)[i] != '('
            && similarity_key(s)[i] != ')' && similarity_key(s)[i] != ',',
{
    let a = keep(normalized(s), not_key_punct());
    lemma_keep_all(normalized(s), not_key_punct());
    let h = map_hiragana(a);
    assert forall|i: int| 0 <= i < h.len() implies #[trigger] h[i] != '(' && h[i] != ')' && h[i] != ',' by {
        assert(not_key_punct()(a[i]));
        assert(h[i] == hiragana_of(a[i]));
    }
    lemma_replaced_kanji_chars(h);
}

/// Replacing kanji numerals by digits brings in no `(`, `)` or `,`.
proof fn lemma_replaced_kanji_chars(s: Seq<char>)
    requires
        forall|i: int| 0 <= i < s.len() ==> #[trigger] s[i] != '(' && s[i] != ')' && s[i] != ',',
    ensures
        forall|i: int| 0 <= i < replaced_kanji(s).len() ==> #[trigger] replaced_kanji(s)[i] != '('
            && replaced_kanji(s)[i] != ')' && replaced_kanji(s)[i] != ',',
    decreases s.len(),
{
    if s.len() > 0 {
        let front = s.drop_last();
        assert forall|i: int| 0 <= i < front.len() implies #[trigger] front[i] != '(' && front[i] != ')' && front[i] != ',' by {
            assert(front[i] == s[i]);
        }
        lemma_replaced_kanji_chars(front);
        let r = replaced_kanji(front);
        let d = kanji_digits(s.last());
        assert forall|i: int| 0 <= i < replaced_kanji(s).len() implies #[trigger] replaced_kanji(s)[i] != '('
            && replaced_kanji(s)[i] != ')' && replaced_kanji(s)[i] != ',' by {
            if i < r.len() {
                assert(replaced_kanji(s)[i] == r[i]);
            } else {
                assert(replaced_kanji(s)[i] == d[i - r.len()]);
                assert(s[s.len() - 1] == s.last());
            }
        }
    }
}

/// The ASCII characters a normalised key keeps: letters, digits, `(`, `)` and `,`.
pub open spec fn ascii_key_chars() -> spec_fn(char) -> bool {
    |c: char| is_ascii_alnum(c) || c == '(' || c == ')' || c == ','
}

/// The normalised key of ASCII text: lowercased, whitespace removed, and
/// only letters, digits, `(`, `)` and `,` kept.
pub open spec fn ascii_normalized(s: Seq<char>) -> Seq<char> {
    keep(keep(ascii_lowered(s), not_whitespace()), ascii_key_chars())
}

/// Filters lowercased text into a key: whitespace removed, and only
/// letters, digits, `(`, `)` and `,` kept. What it keeps holds no capital
/// when the text holds none.
pub fn key_from_lowered(lowered: &str) -> (r: String)
    ensures
        r@ == key_of_lowered(lowered@),
        forall|i: int| 0 <= i < r@.len() ==> is_key_char(#[trigger] r@[i]) && !is_whitespace_char(r@[i]),
        no_ascii_upper(lowered@) ==> no_ascii_upper(r@),
        is_ascii_text(lowered@) ==> r@ == keep(keep(lowered@, not_whitespace()), ascii_key_chars()),
{
    let chars = chars_of(lowered);
    let no_spaces = drop_whitespace(&chars);
    proof {
        lemma_keep_subset(chars@, not_whitespace());
        if is_ascii_text(lowered@) {
            assert forall|i: int| 0 <= i < no_spaces@.len() implies (#[trigger] no_spaces@[i] as u32) < 0x80 by {
                let j = choose|j: int| 0 <= j < chars@.len() && chars@[j] == no_spaces@[i];
                assert((chars@[j] as u32) < 0x80);
            }
        }
    }
    let mut kept: Vec<char> = Vec::new();
    for i in 0..no_spaces.len()
        invariant
            kept@ == keep(no_spaces@.take(i as int), key_chars()),
            is_ascii_text(lowered@) ==> kept@ == keep(no_spaces@.take(i as int), ascii_key_chars()),
            is_ascii_text(lowered@) ==> forall|j: int| 0 <= j < no_spaces@.len() ==> (#[trigger] no_spaces@[j] as u32) < 0x80,
    {
        proof {
            lemma_keep_step(no_spaces@, key_chars(), i as int);
            lemma_keep_step(no_spaces@, ascii_key_chars(), i as int);
        }
        let c = no_spaces[i];
        if char_is_alphanumeric(c) || c == '(' || c == ')' || c == ',' {
            kept.push(c);
        }
    }
    assert(no_spaces@.take(no_spaces@.len() as int) == no_spaces@);
    let r = string_of(&kept);
    proof {
        lemma_keep_all(chars@, not_whitespace());
        lemma_keep_all(no_spaces@, key_chars());
        lemma_keep_subset(no_spaces@, key_chars());
        assert forall|i: int| 0 <= i < r@.len() implies is_key_char(#[trigger] r@[i]) && !is_whitespace_char(r@[i]) by {
            assert(key_chars()(r@[i]));
            let j = choose|j: int| 0 <= j < no_spaces@.len() && no_spaces@[j] == r@[i];
            assert(not_whitespace()(no_spaces@[j]));
        }
        if no_ascii_upper(lowered@) {
            assert forall|i: int| 0 <= i < r@.len() implies !('A' <= #[trigger] r@[i] && r@[i] <= 'Z') by {
                let j = choose|j: int| 0 <= j < no_spaces@.len() && no_spaces@[j] == r@[i];
                let m = choose|m: int| 0 <= m < chars@.len() && chars@[m] == no_spaces@[j];
                assert(chars@[m] == lowered@[m]);
            }
        }
    }
    r
}

/// Normalises a key or tag: NFKC, lowercase, no whitespace, only letters,
/// digits, `(`, `)` and `,`; no ASCII capital is left. On ASCII text this
/// is: lowercase, drop whitespace, keep `a`..=`z`, `0`..=`9`, `(`, `)` and `,`.
pub fn normalize(input: &str) -> (r: String)
    ensures
        r@ == normalized(input@),
        forall|i: int| 0 <= i < r@.len() ==> is_key_char(#[trigger] r@[i]) && !is_whitespace_char(r@[i]),
        no_ascii_upper(r@),
        is_ascii_text(input@) ==> r@ == ascii_normalized(input@),
{
    let nfkc = nfkc_string(input);
    let lowered = lowercase_string(nfkc.as_str());
    proof {
        if is_ascii_text(input@) {
            assert forall|i: int| 0 <= i < lowered@.len() implies (#[trigger] lowered@[i] as u32) < 0x80 by {
                assert(lowered@[i] == ascii_lower_char(input@[i]));
                assert((input@[i] as u32) < 0x80);
            }
        }
    }
    key_from_lowered(lowered.as_str())
}

/// The key under which two names count as the same spelling: the normalised
/// key without `(`, `)` and `,`, katakana as hiragana, kanji numerals as digits.
pub fn normalize_for_similarity(input: &str) -> (r: String)
    ensures
        r@ == similarity_key(input@),
{
    let base = normalize(input);
    let chars = chars_of(base.as_str());
    let mut no_parens: Vec<char> = Vec::new();
    for i in 0..chars.len()
        invariant
            no_parens@ == keep(chars@.take(i as int), not_key_punct()),
    {
        proof {
            lemma_keep_step(chars@, not_key_punct(), i as int);
        }
        let c = chars[i];
        if c != '(' && c != ')' && c != ',' {
            no_parens.push(c);
        }
    }
    assert(chars@.take(chars@.len() as int) == chars@);
    let mut hiragana: Vec<char> = Vec::new();
    for i in 0..no_parens.len()
        invariant
            hiragana@ == map_hiragana(no_parens@.take(i as int)),
    {
        hiragana.push(katakana_to_hiragana(no_parens[i]));
        assert(map_hiragana(no_parens@.take(i + 1)) == map_hiragana(no_parens@.take(i as int)).push(
            hiragana_of(no_parens@[i as int]),
        ));
    }
    assert(no_parens@.take(no_parens@.len() as int) == no_parens@);
    replace_kanji_numbers(&hiragana)
}

/// A full-width katakana character as hiragana; any other character as it is.
fn katakana_to_hiragana(c: char) -> (r: char)
    ensures
        r == hiragana_of(c),
{
    let code = c as u32;
    if 0x30A1 <= code && code <= 0x30F6 {
        match char_from_u32(code - 0x60) {
            Some(h) => h,
            None => c,
        }
    } else {
        c
    }
}

/// The characters of `input` with each kanji numeral written in digits.
fn replace_kanji_numbers(input: &Vec<char>) -> (r: String)
    ensures
        r@ == replaced_kanji(input@),
{
    let mut result = String::new();
    for i in 0..input.len()
        invariant
            result@ == replaced_kanji(input@.take(i as int)),
    {
        let c = input[i];
        let ghost before = result@;
        if c == '一' {
            push_char(&mut result, '1');
        } else if c == '二' {
            push_char(&mut result, '2');
        } else if c == '三' {
            push_char(&mut result, '3');
        } else if c == '四' {
            push_char(&mut result, '4');
        } else if c == '五' {
            push_char(&mut result, '5');
        } else if c == '六' {
            push_char(&mut result, '6');
        } else if c == '七' {
            push_char(&mut result, '7');
        } else if c == '八' {
            push_char(&mut result, '8');
        } else if c == '九' {
            push_char(&mut result, '9');
        } else if c == '十' {
            push_char(&mut result, '1');
            push_char(&mut result, '0');
        } else if c == '百' {
            push_char(&mut result, '1');
            push_char(&mut result, '0');
            push_char(&mut result, '0');
        } else if c == '千' {
            push_char(&mut result, '1');
            push_char(&mut result, '0');
            push_char(&mut result, '0');
            push_char(&mut result, '0');
        } else if c == '万' {
            push_char(&mut result, '1');
            push_char(&mut result, '0');
            push_char(&mut result, '0');
            push_char(&mut result, '0');
            push_char(&mut result, '0');
        } else {
            push_char(&mut result, c);
        }
        assert(result@ == before + kanji_digits(c));
        assert(input@.take(i + 1).drop_last() == input@.take(i as int));
    }
    assert(input@.take(input@.len() as int) == input@);
    result
}

} // verus!
