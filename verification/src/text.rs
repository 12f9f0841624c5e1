//! Character-level helpers shared by the whole library: conversions between
//! `str`/`String` and `Vec<char>`, the Unicode character classes the
//! classification rules rely on, and trimming.
use vstd::prelude::*;

verus! {

/// The Unicode `White_Space` property, as `char::is_whitespace` documents
/// it: U+0009..=U+000D, U+0020, U+0085, U+00A0, U+1680, U+2000..=U+200A,
/// U+2028, U+2029, U+202F, U+205F and U+3000.
pub open spec fn is_whitespace_char(c: char) -> bool {
    let x = c as u32;
    ||| 0x09 <= x <= 0x0D
    ||| x == 0x20
    ||| x == 0x85
    ||| x == 0xA0
    ||| x == 0x1680
    ||| 0x2000 <= x <= 0x200A
    ||| x == 0x2028
    ||| x == 0x2029
    ||| x == 0x202F
    ||| x == 0x205F
    ||| x == 0x3000
}

/// The Unicode `Alphabetic` or `Numeric` property, as `char::is_alphanumeric` reports it.
pub uninterp spec fn is_alphanumeric_char(c: char) -> bool;

/// `char::is_whitespace`: whether the character has the `White_Space` property.
#[verifier::external_body]
pub(crate) fn char_is_whitespace(c: char) -> (r: bool)
    ensures
        r == is_whitespace_char(c),
{
    c.is_whitespace()
}

/// An ASCII letter or digit: `A`..=`Z`, `a`..=`z`, `0`..=`9`.
pub open spec fn is_ascii_alnum(c: char) -> bool {
    ('A' <= c && c <= 'Z') || ('a' <= c && c <= 'z') || ('0' <= c && c <= '9')
}

/// `char::is_alphanumeric`: its result is named `is_alphanumeric_char`; on
/// ASCII it holds exactly for letters and digits, as the documentation of
/// the `Alphabetic` and `Numeric` properties gives it.
#[verifier::external_body]
pub(crate) fn char_is_alphanumeric(c: char) -> (r: bool)
    ensures
        r == is_alphanumeric_char(c),
        (c as u32) < 0x80 ==> r == is_ascii_alnum(c),
{
    c.is_alphanumeric()
}

/// Whether a code point is a Unicode scalar value, i.e. a valid `char`.
pub open spec fn is_scalar_value(x: u32) -> bool {
    x <= 0x10FFFF && !(0xD800 <= x <= 0xDFFF)
}

/// `char::from_u32`: `Some` of the character with that code point exactly
/// when the code point is a Unicode scalar value, as its documentation says.
#[verifier::external_body]
pub(crate) fn char_from_u32(x: u32) -> (r: Option<char>)
    ensures
        is_scalar_value(x) ==> r == Some(x as char),
        !is_scalar_value(x) ==> r is None,
{
    char::from_u32(x)
}

/// `String::push`: appends one character.
#[verifier::external_body]
pub(crate) fn push_char(s: &mut String, c: char)
    ensures
        final(s)@ == old(s)@.push(c),
{
    s.push(c)
}

/// `str == str`: equal exactly when the two hold the same characters.
#[verifier::external_body]
pub(crate) fn str_equal(a: &str, b: &str) -> (r: bool)
    ensures
        r == (a@ == b@),
{
    a == b
}

/// A string with the same characters as `s`.
pub fn copy_str(s: &str) -> (r: String)
    ensures
        r@ == s@,
{
    let mut r = String::new();
    r.append(s);
    r
}

/// The views of a sequence of strings.
pub open spec fn views(v: Seq<String>) -> Seq<Seq<char>> {
    v.map_values(|s: String| s@)
}

/// What a sequence with one more element at the end contains.
pub proof fn lemma_push_contains<A>(s: Seq<A>, x: A, y: A)
    ensures
        s.push(x).contains(y) <==> (s.contains(y) || y == x),
{
    if s.contains(y) {
        let k = choose|k: int| 0 <= k < s.len() && s[k] == y;
        assert(s.push(x)[k] == y);
    }
    if y == x {
        assert(s.push(x)[s.len() as int] == y);
    }
    if s.push(x).contains(y) {
        let k = choose|k: int| 0 <= k < s.len() + 1 && s.push(x)[k] == y;
        if k < s.len() {
            assert(s[k] == y);
        }
    }
}

/// Whether `v` holds a string equal to `s`.
pub fn contains_str(v: &Vec<String>, s: &str) -> (r: bool)
    ensures
        r == views(v@).contains(s@),
{
    let mut i: usize = 0;
    while i < v.len()
        invariant
            i <= v.len(),
            forall|j: int| 0 <= j < i ==> v@[j]@ != s@,
        decreases v.len() - i,
    {
        if str_equal(v[i].as_str(), s) {
            assert(views(v@)[i as int] == s@);
            return true;
        }
        i = i + 1;
    }
    false
}

/// ASCII decimal digit `0`..=`9`.
pub open spec fn is_ascii_digit_char(c: char) -> bool {
    '0' <= c && c <= '9'
}

/// The characters of a string, one by one.
pub fn chars_of(s: &str) -> (v: Vec<char>)
    ensures
        v@ == s@,
{
    let n = s.unicode_len();
    let mut v: Vec<char> = Vec::new();
    for i in 0..n
        invariant
            n == s@.len(),
            v@ == s@.take(i as int),
    {
        let c = s.get_char(i);
        v.push(c);
        assert(s@.take(i + 1) == s@.take(i as int).push(c));
    }
    assert(s@.take(n as int) == s@);
    v
}

/// A string made of the given characters.
pub fn string_of(v: &Vec<char>) -> (s: String)
    ensures
        s@ == v@,
{
    let mut s = String::new();
    for i in 0..v.len()
        invariant
            s@ == v@.take(i as int),
    {
        push_char(&mut s, v[i]);
        assert(v@.take(i + 1) == v@.take(i as int).push(v@[i as int]));
    }
    assert(v@.take(v@.len() as int) == v@);
    s
}

/// The characters of `s` that satisfy `p`, in order.
pub open spec fn keep(s: Seq<char>, p: spec_fn(char) -> bool) -> Seq<char>
    decreases s.len(),
{
    if s.len() == 0 {
        Seq::empty()
    } else if p(s.last()) {
        keep(s.drop_last(), p).push(s.last())
    } else {
        keep(s.drop_last(), p)
    }
}

/// Characters that are not Unicode whitespace.
pub open spec fn not_whitespace() -> spec_fn(char) -> bool {
    |c: char| !is_whitespace_char(c)
}

/// Every character `keep` keeps satisfies the predicate.
pub proof fn lemma_keep_all(s: Seq<char>, p: spec_fn(char) -> bool)
    ensures
        forall|i: int| 0 <= i < keep(s, p).len() ==> p(#[trigger] keep(s, p)[i]),
    decreases s.len(),
{
    if s.len() > 0 {
        lemma_keep_all(s.drop_last(), p);
        let r = keep(s.drop_last(), p);
        assert forall|i: int| 0 <= i < keep(s, p).len() implies p(#[trigger] keep(s, p)[i]) by {
            if i < r.len() {
                assert(keep(s, p)[i] == r[i]);
            }
        }
    }
}

/// One step of a left-to-right `keep`: the prefix of length `i + 1`.
pub proof fn lemma_keep_step(s: Seq<char>, p: spec_fn(char) -> bool, i: int)
    requires
        0 <= i < s.len(),
    ensures
        keep(s.take(i + 1), p) == if p(s[i]) {
            keep(s.take(i), p).push(s[i])
        } else {
            keep(s.take(i), p)
        },
{
    assert(s.take(i + 1).drop_last() == s.take(i));
}

/// The characters of `v` that are not whitespace.
pub fn drop_whitespace(v: &Vec<char>) -> (r: Vec<char>)
    ensures
        r@ == keep(v@, not_whitespace()),
{
    let mut r: Vec<char> = Vec::new();
    for i in 0..v.len()
        invariant
            r@ == keep(v@.take(i as int), not_whitespace()),
    {
        proof {
            lemma_keep_step(v@, not_whitespace(), i as int);
        }
        if !char_is_whitespace(v[i]) {
            r.push(v[i]);
        }
    }
    assert(v@.take(v@.len() as int) == v@);
    r
}

/// The first index at or after `start` where `s` holds `c`, if any.
pub open spec fn first_from(s: Seq<char>, start: int, c: char) -> Option<int>
    decreases s.len() - start,
{
    if start < 0 || start >= s.len() {
        None
    } else if s[start] == c {
        Some(start)
    } else {
        first_from(s, start + 1, c)
    }
}

/// `first_from` finds an occurrence of `c` at or after `start`, and when it
/// finds none there is none.
pub proof fn lemma_first_from_bounds(s: Seq<char>, start: int, c: char)
    requires
        0 <= start,
    ensures
        first_from(s, start, c) matches Some(k) ==> start <= k < s.len() && s[k] == c,
        first_from(s, start, c) is None ==> forall|j: int| start <= j < s.len() ==> s[j] != c,
    decreases s.len() - start,
{
    if start < s.len() && s[start] != c {
        lemma_first_from_bounds(s, start + 1, c);
    }
}

/// `first_from` stops at the first `c` from `start` on.
pub proof fn lemma_first_from_at(s: Seq<char>, start: int, k: int, c: char)
    requires
        0 <= start <= k < s.len(),
        s[k] == c,
        forall|j: int| start <= j < k ==> s[j] != c,
    ensures
        first_from(s, start, c) == Some(k),
    decreases k - start,
{
    if start < k {
        lemma_first_from_at(s, start + 1, k, c);
    }
}

/// `str::find` of one character, counted in characters, from `start` on.
pub fn find_char_from(v: &Vec<char>, start: usize, c: char) -> (r: Option<usize>)
    ensures
        r matches Some(k) ==> first_from(v@, start as int, c) == Some(k as int),
        r is None ==> first_from(v@, start as int, c) is None,
{
    let mut i = start;
    while i < v.len()
        invariant
            start <= i,
            first_from(v@, start as int, c) == first_from(v@, i as int, c),
        decreases v.len() - i,
    {
        if v[i] == c {
            return Some(i);
        }
        i = i + 1;
    }
    None
}

/// `s` without its leading whitespace.
pub open spec fn trim_start(s: Seq<char>) -> Seq<char>
    decreases s.len(),
{
    if s.len() > 0 && is_whitespace_char(s[0]) {
        trim_start(s.drop_first())
    } else {
        s
    }
}

/// `s` without its trailing whitespace.
pub open spec fn trim_end(s: Seq<char>) -> Seq<char>
    decreases s.len(),
{
    if s.len() > 0 && is_whitespace_char(s.last()) {
        trim_end(s.drop_last())
    } else {
        s
    }
}

/// `str::trim`: `s` without leading and trailing whitespace.
pub open spec fn trim(s: Seq<char>) -> Seq<char> {
    trim_end(trim_start(s))
}

/// The characters of `v` from `lo` up to `hi`.
pub fn slice_chars(v: &Vec<char>, lo: usize, hi: usize) -> (r: Vec<char>)
    requires
        lo <= hi <= v.len(),
    ensures
        r@ == v@.subrange(lo as int, hi as int),
{
    let mut r: Vec<char> = Vec::new();
    let mut i = lo;
    while i < hi
        invariant
            lo <= i <= hi <= v.len(),
            r@ == v@.subrange(lo as int, i as int),
        decreases hi - i,
    {
        r.push(v[i]);
        assert(v@.subrange(lo as int, i + 1) == v@.subrange(lo as int, i as int).push(v@[i as int]));
        i = i + 1;
    }
    r
}

/// `v` without leading and trailing whitespace.
pub fn trim_chars(v: &Vec<char>) -> (r: Vec<char>)
    ensures
        r@ == trim(v@),
{
    let mut lo: usize = 0;
    assert(v@.skip(0) == v@);
    while lo < v.len() && char_is_whitespace(v[lo])
        invariant
            lo <= v.len(),
            trim_start(v@) == trim_start(v@.skip(lo as int)),
        decreases v.len() - lo,
    {
        assert(v@.skip(lo as int).drop_first() == v@.skip(lo + 1));
        lo = lo + 1;
    }
    let mut hi: usize = v.len();
    assert(v@.skip(lo as int) == v@.subrange(lo as int, v@.len() as int));
    while hi > lo && char_is_whitespace(v[hi - 1])
        invariant
            lo <= hi <= v.len(),
            trim_start(v@) == v@.subrange(lo as int, v@.len() as int),
            trim_end(trim_start(v@)) == trim_end(v@.subrange(lo as int, hi as int)),
        decreases hi,
    {
        assert(v@.subrange(lo as int, hi as int).drop_last() == v@.subrange(lo as int, hi - 1));
        hi = hi - 1;
    }
    slice_chars(v, lo, hi)
}

/// Whether `s` holds `c` twice in a row somewhere.
pub open spec fn has_pair(s: Seq<char>, c: char) -> bool {
    exists|i: int| 0 <= i < s.len() - 1 && #[trigger] pair_at(s, c, i)
}

/// `s` holds `c` at `i` and at `i + 1`.
pub open spec fn pair_at(s: Seq<char>, c: char, i: int) -> bool {
    s[i] == c && s[i + 1] == c
}

/// One left-to-right pass of `str::replace` of the two-character pattern
/// `cc` by `rep`: non-overlapping occurrences, leftmost first.
pub open spec fn replace_pair(s: Seq<char>, c: char, rep: Seq<char>) -> Seq<char>
    decreases s.len(),
{
    if s.len() == 0 {
        s
    } else if s.len() >= 2 && s[0] == c && s[1] == c {
        rep + replace_pair(s.skip(2), c, rep)
    } else {
        seq![s[0]] + replace_pair(s.drop_first(), c, rep)
    }
}

/// With a replacement shorter than the pattern, a pass never lengthens the
/// text, and shortens it when the pattern occurs.
pub proof fn lemma_replace_pair_len(s: Seq<char>, c: char, rep: Seq<char>)
    requires
        rep.len() < 2,
    ensures
        replace_pair(s, c, rep).len() <= s.len(),
        has_pair(s, c) ==> replace_pair(s, c, rep).len() < s.len(),
    decreases s.len(),
{
    if s.len() == 0 {
    } else if s.len() >= 2 && s[0] == c && s[1] == c {
        lemma_replace_pair_len(s.skip(2), c, rep);
    } else {
        lemma_replace_pair_len(s.drop_first(), c, rep);
        if has_pair(s, c) {
            let i = choose|i: int| 0 <= i < s.len() - 1 && #[trigger] pair_at(s, c, i);
            assert(i >= 1);
            assert(pair_at(s.drop_first(), c, i - 1));
        }
    }
}

/// Replacing keeps a property that every character of the input and of the
/// replacement has.
pub proof fn lemma_replace_pair_chars(s: Seq<char>, c: char, rep: Seq<char>, q: spec_fn(char) -> bool)
    requires
        forall|i: int| 0 <= i < s.len() ==> q(#[trigger] s[i]),
        forall|i: int| 0 <= i < rep.len() ==> q(#[trigger] rep[i]),
    ensures
        forall|i: int| 0 <= i < replace_pair(s, c, rep).len() ==> q(#[trigger] replace_pair(s, c, rep)[i]),
    decreases s.len(),
{
    if s.len() == 0 {
    } else if s.len() >= 2 && s[0] == c && s[1] == c {
        let t = s.skip(2);
        assert forall|i: int| 0 <= i < t.len() implies q(#[trigger] t[i]) by {
            assert(t[i] == s[i + 2]);
        }
        lemma_replace_pair_chars(t, c, rep, q);
        let r = replace_pair(s, c, rep);
        assert forall|i: int| 0 <= i < r.len() implies q(#[trigger] r[i]) by {
            if i >= rep.len() {
                assert(r[i] == replace_pair(t, c, rep)[i - rep.len()]);
            }
        }
    } else {
        let t = s.drop_first();
        assert forall|i: int| 0 <= i < t.len() implies q(#[trigger] t[i]) by {
            assert(t[i] == s[i + 1]);
        }
        lemma_replace_pair_chars(t, c, rep, q);
        let r = replace_pair(s, c, rep);
        assert forall|i: int| 0 <= i < r.len() implies q(#[trigger] r[i]) by {
            if i >= 1 {
                assert(r[i] == replace_pair(t, c, rep)[i - 1]);
            } else {
                assert(q(s[0]));
            }
        }
    }
}

/// `while s.contains(cc) { s = s.replace(cc, rep) }`.
pub open spec fn replace_pair_until_gone(s: Seq<char>, c: char, rep: Seq<char>) -> Seq<char>
    decreases s.len(),
{
    if rep.len() < 2 && has_pair(s, c) {
        proof {
            lemma_replace_pair_len(s, c, rep);
        }
        replace_pair_until_gone(replace_pair(s, c, rep), c, rep)
    } else {
        s
    }
}

/// Replacing until none is left leaves no `cc`, and keeps a property that
/// every character of the input and of the replacement has.
pub proof fn lemma_replace_pair_until_gone(s: Seq<char>, c: char, rep: Seq<char>, q: spec_fn(char) -> bool)
    requires
        rep.len() < 2,
        forall|i: int| 0 <= i < s.len() ==> q(#[trigger] s[i]),
        forall|i: int| 0 <= i < rep.len() ==> q(#[trigger] rep[i]),
    ensures
        !has_pair(replace_pair_until_gone(s, c, rep), c),
        forall|i: int| 0 <= i < replace_pair_until_gone(s, c, rep).len() ==> q(
            #[trigger] replace_pair_until_gone(s, c, rep)[i],
        ),
    decreases s.len(),
{
    if has_pair(s, c) {
        lemma_replace_pair_len(s, c, rep);
        lemma_replace_pair_chars(s, c, rep, q);
        lemma_replace_pair_until_gone(replace_pair(s, c, rep), c, rep, q);
    }
}

/// Whether `v` holds `c` twice in a row.
pub fn contains_pair(v: &Vec<char>, c: char) -> (r: bool)
    ensures
        r == has_pair(v@, c),
{
    let mut i: usize = 0;
    while i < v.len() && i + 1 < v.len()
        invariant
            forall|j: int| 0 <= j < i && j < v@.len() - 1 ==> !#[trigger] pair_at(v@, c, j),
        decreases v.len() - i,
    {
        if v[i] == c && v[i + 1] == c {
            assert(pair_at(v@, c, i as int));
            return true;
        }
        i = i + 1;
    }
    false
}

/// One pass of replacing `cc` by `rep`.
pub fn replace_pair_once(v: &Vec<char>, c: char, rep: &Vec<char>) -> (r: Vec<char>)
    ensures
        r@ == replace_pair(v@, c, rep@),
{
    let mut r: Vec<char> = Vec::new();
    let mut i: usize = 0;
    assert(v@.skip(0) == v@);
    while i < v.len()
        invariant
            i <= v.len(),
            r@ + replace_pair(v@.skip(i as int), c, rep@) == replace_pair(v@, c, rep@),
        decreases v.len() - i,
    {
        let ghost rest = v@.skip(i as int);
        if i + 1 < v.len() && v[i] == c && v[i + 1] == c {
            let ghost before = r@;
            for j in 0..rep.len()
                invariant
                    r@ == before + rep@.take(j as int),
            {
                r.push(rep[j]);
                assert(rep@.take(j + 1) == rep@.take(j as int).push(rep@[j as int]));
            }
            assert(rep@.take(rep@.len() as int) == rep@);
            assert(rest.skip(2) == v@.skip(i + 2));
            assert(r@ + replace_pair(v@.skip(i + 2), c, rep@) == before + replace_pair(rest, c, rep@));
            i = i + 2;
        } else {
            assert(rest.drop_first() == v@.skip(i + 1));
            r.push(v[i]);
            assert(r@ + replace_pair(v@.skip(i + 1), c, rep@) == (r@.drop_last() + seq![v@[i as int]]) + replace_pair(v@.skip(i + 1), c, rep@));
            i = i + 1;
        }
    }
    assert(v@.skip(v@.len() as int) =~= Seq::<char>::empty());
    r
}

/// Replaces `cc` by `rep` until no `cc` is left.
pub fn replace_pair_repeatedly(v: Vec<char>, c: char, rep: &Vec<char>) -> (r: Vec<char>)
    requires
        rep.len() < 2,
    ensures
        r@ == replace_pair_until_gone(v@, c, rep@),
{
    let mut cur = v;
    while contains_pair(&cur, c)
        invariant
            rep.len() < 2,
            replace_pair_until_gone(cur@, c, rep@) == replace_pair_until_gone(v@, c, rep@),
        decreases cur.len(),
    {
        proof {
            lemma_replace_pair_len(cur@, c, rep@);
        }
        cur = replace_pair_once(&cur, c, rep);
    }
    cur
}

/// `idx` places each character of `a` at a position of `b`, the positions
/// strictly increasing.
pub open spec fn embeds(a: Seq<char>, b: Seq<char>, idx: Seq<int>) -> bool {
    &&& idx.len() == a.len()
    &&& forall|j: int| 0 <= j < idx.len() ==> 0 <= #[trigger] idx[j] < b.len() && b[idx[j]] == a[j]
    &&& forall|j1: int, j2: int| 0 <= j1 < j2 < idx.len() ==> #[trigger] idx[j1] < #[trigger] idx[j2]
}

/// `a` is a subsequence of `b`: `b` with some characters left out.
pub open spec fn is_subsequence(a: Seq<char>, b: Seq<char>) -> bool {
    exists|idx: Seq<int>| #[trigger] embeds(a, b, idx)
}

/// A subsequence of a subsequence is a subsequence.
pub proof fn lemma_embeds_compose(a: Seq<char>, b: Seq<char>, c: Seq<char>, i1: Seq<int>, i2: Seq<int>) -> (idx: Seq<int>)
    requires
        embeds(a, b, i1),
        embeds(b, c, i2),
    ensures
        embeds(a, c, idx),
{
    let idx = Seq::new(i1.len(), |j: int| i2[i1[j]]);
    assert forall|j: int| 0 <= j < idx.len() implies 0 <= #[trigger] idx[j] < c.len() && c[idx[j]] == a[j] by {
        assert(0 <= i1[j] < b.len());
        assert(0 <= i2[i1[j]] < c.len());
    }
    assert forall|j1: int, j2: int| 0 <= j1 < j2 < idx.len() implies #[trigger] idx[j1] < #[trigger] idx[j2] by {
        assert(i1[j1] < i1[j2]);
        assert(0 <= i1[j1] && i1[j2] < b.len());
        assert(i2[i1[j1]] < i2[i1[j2]]);
    }
    idx
}

/// `keep` gives a subsequence of its input.
pub proof fn lemma_keep_embeds(s: Seq<char>, p: spec_fn(char) -> bool) -> (idx: Seq<int>)
    ensures
        embeds(keep(s, p), s, idx),
    decreases s.len(),
{
    if s.len() == 0 {
        Seq::empty()
    } else {
        let i0 = lemma_keep_embeds(s.drop_last(), p);
        let r0 = keep(s.drop_last(), p);
        if p(s.last()) {
            let idx = i0.push(s.len() - 1);
            let r = keep(s, p);
            assert forall|j: int| 0 <= j < idx.len() implies 0 <= #[trigger] idx[j] < s.len() && s[idx[j]] == r[j] by {
                if j < i0.len() {
                    assert(s[i0[j]] == s.drop_last()[i0[j]]);
                }
            }
            assert forall|j1: int, j2: int| 0 <= j1 < j2 < idx.len() implies #[trigger] idx[j1] < #[trigger] idx[j2] by {
                if j2 < i0.len() {
                    assert(i0[j1] < i0[j2]);
                } else {
                    assert(i0[j1] < s.len() - 1);
                }
            }
            idx
        } else {
            assert forall|j: int| 0 <= j < i0.len() implies 0 <= #[trigger] i0[j] < s.len() && s[i0[j]] == r0[j] by {
                assert(s[i0[j]] == s.drop_last()[i0[j]]);
            }
            i0
        }
    }
}

/// One pass of removing the pair `cc` gives a subsequence of its input.
pub proof fn lemma_replace_pair_embeds(s: Seq<char>, c: char) -> (idx: Seq<int>)
    ensures
        embeds(replace_pair(s, c, Seq::empty()), s, idx),
    decreases s.len(),
{
    let r = replace_pair(s, c, Seq::empty());
    if s.len() == 0 {
        Seq::empty()
    } else if s.len() >= 2 && s[0] == c && s[1] == c {
        let t = s.skip(2);
        let i0 = lemma_replace_pair_embeds(t, c);
        assert(r == replace_pair(t, c, Seq::empty()));
        let idx = i0.map_values(|k: int| k + 2);
        assert forall|j: int| 0 <= j < idx.len() implies 0 <= #[trigger] idx[j] < s.len() && s[idx[j]] == r[j] by {
            assert(t[i0[j]] == s[i0[j] + 2]);
        }
        assert forall|j1: int, j2: int| 0 <= j1 < j2 < idx.len() implies #[trigger] idx[j1] < #[trigger] idx[j2] by {
            assert(i0[j1] < i0[j2]);
        }
        idx
    } else {
        let t = s.drop_first();
        let i0 = lemma_replace_pair_embeds(t, c);
        let r0 = replace_pair(t, c, Seq::empty());
        assert(r == seq![s[0]] + r0);
        let idx = seq![0int] + i0.map_values(|k: int| k + 1);
        assert forall|j: int| 0 <= j < idx.len() implies 0 <= #[trigger] idx[j] < s.len() && s[idx[j]] == r[j] by {
            if j > 0 {
                assert(idx[j] == i0[j - 1] + 1);
                assert(t[i0[j - 1]] == s[i0[j - 1] + 1]);
                assert(r[j] == r0[j - 1]);
            }
        }
        assert forall|j1: int, j2: int| 0 <= j1 < j2 < idx.len() implies #[trigger] idx[j1] < #[trigger] idx[j2] by {
            assert(idx[j2] == i0[j2 - 1] + 1);
            if j1 > 0 {
                assert(idx[j1] == i0[j1 - 1] + 1);
                assert(i0[j1 - 1] < i0[j2 - 1]);
            } else {
                assert(0 <= i0[j2 - 1]);
            }
        }
        idx
    }
}

/// Removing the pair `cc` until none is left gives a subsequence of the input.
pub proof fn lemma_replace_pair_until_gone_embeds(s: Seq<char>, c: char) -> (idx: Seq<int>)
    ensures
        embeds(replace_pair_until_gone(s, c, Seq::empty()), s, idx),
    decreases s.len(),
{
    if has_pair(s, c) {
        lemma_replace_pair_len(s, c, Seq::empty());
        let once = replace_pair(s, c, Seq::empty());
        let i1 = lemma_replace_pair_until_gone_embeds(once, c);
        let i2 = lemma_replace_pair_embeds(s, c);
        lemma_embeds_compose(replace_pair_until_gone(once, c, Seq::empty()), once, s, i1, i2)
    } else {
        let idx = Seq::new(s.len(), |j: int| j);
        idx
    }
}

/// `keep` leaves a sequence unchanged when every character satisfies the predicate.
pub proof fn lemma_keep_identity(s: Seq<char>, p: spec_fn(char) -> bool)
    requires
        forall|i: int| 0 <= i < s.len() ==> p(#[trigger] s[i]),
    ensures
        keep(s, p) == s,
    decreases s.len(),
{
    if s.len() > 0 {
        assert forall|i: int| 0 <= i < s.drop_last().len() implies p(#[trigger] s.drop_last()[i]) by {
            assert(s.drop_last()[i] == s[i]);
        }
        lemma_keep_identity(s.drop_last(), p);
        assert(p(s[s.len() - 1]));
        assert(s.drop_last().push(s.last()) == s);
    }
}

} // verus!
