//! The order of strings (code point by code point, as `str`'s `Ord` orders
//! them) and sorting of string lists.
use vstd::prelude::*;
use crate::text::{chars_of, lemma_push_contains, views};

verus! {

/// `a` comes before `b`: at the first difference `a` has the smaller code
/// point, or `a` is a proper prefix of `b`.
pub open spec fn seq_less(a: Seq<char>, b: Seq<char>) -> bool
    decreases a.len(),
{
    if a.len() == 0 {
        b.len() > 0
    } else if b.len() == 0 {
        false
    } else if a[0] != b[0] {
        a[0] < b[0]
    } else {
        seq_less(a.drop_first(), b.drop_first())
    }
}

/// No string comes before itself.
pub proof fn lemma_seq_less_irreflexive(a: Seq<char>)
    ensures
        !seq_less(a, a),
    decreases a.len(),
{
    if a.len() > 0 {
        lemma_seq_less_irreflexive(a.drop_first());
    }
}

/// The order on strings is transitive.
pub proof fn lemma_seq_less_transitive(a: Seq<char>, b: Seq<char>, c: Seq<char>)
    requires
        seq_less(a, b),
        seq_less(b, c),
    ensures
        seq_less(a, c),
    decreases a.len(),
{
    if a.len() > 0 && b.len() > 0 && c.len() > 0 && a[0] == b[0] && b[0] == c[0] {
        lemma_seq_less_transitive(a.drop_first(), b.drop_first(), c.drop_first());
    }
}

/// Of two different strings, one comes before the other.
pub proof fn lemma_seq_less_total(a: Seq<char>, b: Seq<char>)
    ensures
        a == b || seq_less(a, b) || seq_less(b, a),
    decreases a.len(),
{
    if a.len() > 0 && b.len() > 0 && a[0] == b[0] {
        lemma_seq_less_total(a.drop_first(), b.drop_first());
        if a.drop_first() == b.drop_first() {
            assert(a =~= seq![a[0]] + a.drop_first());
            assert(b =~= seq![b[0]] + b.drop_first());
        }
    } else if a.len() == 0 && b.len() == 0 {
        assert(a =~= b);
    }
}

/// Of two strings, at most one comes before the other, and a string that
/// comes before another differs from it.
pub proof fn lemma_seq_less_asymmetric(a: Seq<char>, b: Seq<char>)
    requires
        seq_less(a, b),
    ensures
        !seq_less(b, a),
        a != b,
{
    lemma_seq_less_irreflexive(a);
    if seq_less(b, a) {
        lemma_seq_less_transitive(a, b, a);
    }
}

/// Whether `a` comes before `b` in the order of strings.
pub fn str_less(a: &str, b: &str) -> (r: bool)
    ensures
        r == seq_less(a@, b@),
{
    let x = chars_of(a);
    let y = chars_of(b);
    let mut i: usize = 0;
    assert(x@.skip(0) == x@);
    assert(y@.skip(0) == y@);
    while i < x.len() && i < y.len() && x[i] == y[i]
        invariant
            i <= x.len(),
            i <= y.len(),
            seq_less(x@, y@) == seq_less(x@.skip(i as int), y@.skip(i as int)),
        decreases x.len() - i,
    {
        assert(x@.skip(i as int).drop_first() == x@.skip(i + 1));
        assert(y@.skip(i as int).drop_first() == y@.skip(i + 1));
        i = i + 1;
    }
    if i == x.len() {
        i < y.len()
    } else if i == y.len() {
        false
    } else {
        assert(x@.skip(i as int)[0] == x@[i as int]);
        assert(y@.skip(i as int)[0] == y@[i as int]);
        x[i] < y[i]
    }
}

/// Every string comes before the next ones.
pub open spec fn strictly_sorted(s: Seq<Seq<char>>) -> bool {
    forall|i: int, j: int| 0 <= i < j < s.len() ==> seq_less(#[trigger] s[i], #[trigger] s[j])
}

/// Sorts distinct strings into the order of strings.
pub fn sort_strings(v: Vec<String>) -> (r: Vec<String>)
    requires
        views(v@).no_duplicates(),
    ensures
        strictly_sorted(views(r@)),
        views(r@).len() == views(v@).len(),
        forall|s: Seq<char>| views(r@).contains(s) <==> views(v@).contains(s),
{
    let mut r: Vec<String> = Vec::new();
    let n = v.len();
    for i in 0..n
        invariant
            n == v.len(),
            views(v@).no_duplicates(),
            strictly_sorted(views(r@)),
            r.len() == i,
            forall|s: Seq<char>| views(r@).contains(s) <==> views(v@).take(i as int).contains(s),
    {
        let x = v[i].clone();
        let mut p: usize = 0;
        while p < r.len() && str_less(r[p].as_str(), x.as_str())
            invariant
                p <= r.len(),
                forall|k: int| 0 <= k < p ==> seq_less(#[trigger] views(r@)[k], x@),
            decreases r.len() - p,
        {
            p = p + 1;
        }
        proof {
            assert(!views(r@).contains(x@)) by {
                if views(r@).contains(x@) {
                    let k = choose|k: int| 0 <= k < views(r@).len() && views(r@)[k] == x@;
                    assert(views(v@).take(i as int).contains(x@));
                    let k2 = choose|k2: int| 0 <= k2 < i && views(v@).take(i as int)[k2] == x@;
                    assert(views(v@)[k2] == views(v@)[i as int]);
                }
            }
            if p < r.len() {
                lemma_seq_less_total(views(r@)[p as int], x@);
            }
        }
        let ghost before = views(r@);
        r.insert(p, x);
        proof {
            assert(views(r@) =~= before.insert(p as int, x@));
            assert forall|a: int, b: int| 0 <= a < b < views(r@).len() implies seq_less(#[trigger] views(r@)[a], #[trigger] views(r@)[b]) by {
                if b < p {
                } else if a < p && b == p {
                } else if a < p {
                    assert(seq_less(before[a], before[b - 1]));
                } else if a == p {
                    if b - 1 > p {
                        lemma_seq_less_transitive(x@, before[p as int], before[b - 1]);
                    }
                } else {
                }
            }
            assert(views(v@).take(i + 1) == views(v@).take(i as int).push(x@));
            assert forall|s: Seq<char>| views(r@).contains(s) <==> views(v@).take(i + 1).contains(s) by {
                lemma_push_contains(views(v@).take(i as int), x@, s);
                if views(r@).contains(s) {
                    let k = choose|k: int| 0 <= k < views(r@).len() && views(r@)[k] == s;
                    if k < p {
                        assert(before[k] == s);
                        assert(before.contains(s));
                    } else if k > p {
                        assert(before[k - 1] == s);
                        assert(before.contains(s));
                    }
                }
                if views(v@).take(i as int).contains(s) {
                    assert(before.contains(s));
                    let k = choose|k: int| 0 <= k < before.len() && before[k] == s;
                    if k < p {
                        assert(views(r@)[k] == s);
                    } else {
                        assert(views(r@)[k + 1] == s);
                    }
                }
                if s == x@ {
                    assert(views(r@)[p as int] == s);
                }
            }
        }
    }
    assert(views(v@).take(n as int) == views(v@));
    r
}

} // verus!
