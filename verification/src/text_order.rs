//! The order of strings, and sorting a list of distinct strings into it.
use vstd::prelude::*;
use crate::text::chars_of;
use crate::text::owned;
use crate::grammar::validity::names;

verus! {

/// Whether `a` comes before `b`: character by character by code point, a proper
/// prefix first. This is the byte order of their UTF-8 encodings, the order of
/// `String`.
pub open spec fn text_lt(a: Seq<char>, b: Seq<char>) -> bool
    decreases a.len(),
{
    if a.len() == 0 {
        b.len() > 0
    } else if b.len() == 0 {
        false
    } else if a[0] != b[0] {
        (a[0] as int) < (b[0] as int)
    } else {
        text_lt(a.drop_first(), b.drop_first())
    }
}

/// The strings of `s` are in increasing order, each before the next.
pub open spec fn texts_sorted(s: Seq<Seq<char>>) -> bool {
    forall|i: int, j: int| 0 <= i < j < s.len() ==> text_lt(#[trigger] s[i], #[trigger] s[j])
}

/// No string comes before itself.
pub proof fn lemma_text_lt_irreflexive(a: Seq<char>)
    ensures
        !text_lt(a, a),
    decreases a.len(),
{
    if a.len() > 0 {
        lemma_text_lt_irreflexive(a.drop_first());
    }
}

/// The order is transitive.
pub proof fn lemma_text_lt_transitive(a: Seq<char>, b: Seq<char>, c: Seq<char>)
    requires
        text_lt(a, b),
        text_lt(b, c),
    ensures
        text_lt(a, c),
    decreases a.len(),
{
    if a.len() > 0 && b.len() > 0 && c.len() > 0 && a[0] == b[0] && b[0] == c[0] {
        lemma_text_lt_transitive(a.drop_first(), b.drop_first(), c.drop_first());
    }
}

/// Of two different strings, one comes before the other.
pub proof fn lemma_text_lt_total(a: Seq<char>, b: Seq<char>)
    requires
        a != b,
    ensures
        text_lt(a, b) || text_lt(b, a),
    decreases a.len(),
{
    if a.len() > 0 && b.len() > 0 && a[0] == b[0] {
        assert(a =~= seq![a[0]] + a.drop_first());
        assert(b =~= seq![b[0]] + b.drop_first());
        lemma_text_lt_total(a.drop_first(), b.drop_first());
    } else if a.len() == 0 && b.len() == 0 {
        assert(a =~= b);
    }
}

/// Whether `a` comes before `b` (see `text_lt`).
pub fn str_lt(a: &str, b: &str) -> (r: bool)
    ensures
        r == text_lt(a@, b@),
{
    let x = chars_of(a);
    let y = chars_of(b);
    let mut i: usize = 0;
    assert(a@.skip(0) =~= a@);
    assert(b@.skip(0) =~= b@);
    while i < x.len() && i < y.len()
        invariant
            x@ == a@,
            y@ == b@,
            i <= x.len(),
            i <= y.len(),
            text_lt(a@, b@) == text_lt(a@.skip(i as int), b@.skip(i as int)),
        decreases x.len() - i,
    {
        let ghost sa = a@.skip(i as int);
        let ghost sb = b@.skip(i as int);
        assert(sa[0] == x@[i as int]);
        assert(sb[0] == y@[i as int]);
        if x[i] != y[i] {
            return x[i] < y[i];
        }
        assert(sa.drop_first() =~= a@.skip(i + 1));
        assert(sb.drop_first() =~= b@.skip(i + 1));
        i = i + 1;
    }
    let ghost sa = a@.skip(i as int);
    let ghost sb = b@.skip(i as int);
    assert(sa.len() == x.len() - i);
    assert(sb.len() == y.len() - i);
    i == x.len() && i < y.len()
}

/// The distinct strings of `v` in increasing order.
pub fn sort_strings(v: &Vec<String>) -> (r: Vec<String>)
    requires
        v.deep_view().no_duplicates(),
    ensures
        r.deep_view().no_duplicates(),
        names(r.deep_view()) == names(v.deep_view()),
        texts_sorted(r.deep_view()),
{
    let ghost vv = v.deep_view();
    let mut r: Vec<String> = Vec::new();
    let mut k: usize = 0;
    while k < v.len()
        invariant
            vv == v.deep_view(),
            vv.no_duplicates(),
            k <= v.len(),
            texts_sorted(r.deep_view()),
            forall|s: Seq<char>| #[trigger] r.deep_view().contains(s) <==> vv.take(k as int).contains(s),
        decreases v.len() - k,
    {
        let x = owned(v[k].as_str());
        let ghost xv = x@;
        assert(xv == vv[k as int]);
        assert(!vv.take(k as int).contains(xv)) by {
            if vv.take(k as int).contains(xv) {
                let q = choose|q: int| 0 <= q < k && vv.take(k as int)[q] == xv;
                assert(vv[q] == vv[k as int]);
            }
        }
        let ghost old_r = r.deep_view();
        let mut p: usize = 0;
        while p < r.len() && !str_lt(x.as_str(), r[p].as_str())
            invariant
                old_r == r.deep_view(),
                xv == x@,
                p <= r.len(),
                forall|q: int| 0 <= q < p ==> !text_lt(xv, #[trigger] old_r[q]),
            decreases r.len() - p,
        {
            assert(old_r[p as int] == r@[p as int]@);
            p = p + 1;
        }
        assert(p < r.len() ==> old_r[p as int] == r@[p as int]@);
        let ghost before = r@;
        r.insert(p, x);
        let ghost nr = old_r.insert(p as int, xv);
        assert(r.deep_view() =~= nr) by {
            assert forall|q: int| 0 <= q < nr.len() implies r.deep_view()[q] == nr[q] by {
                if q < p {
                    assert(r@[q] == before[q]);
                } else if q > p {
                    assert(r@[q] == before[q - 1]);
                }
            }
        }
        assert forall|i: int, j: int| 0 <= i < j < nr.len() implies text_lt(#[trigger] nr[i], #[trigger] nr[j]) by {
            if j < p {
                assert(text_lt(old_r[i], old_r[j]));
            } else if i > p {
                assert(text_lt(old_r[i - 1], old_r[j - 1]));
            } else if j == p {
                assert(!text_lt(xv, old_r[i]));
                assert(old_r.contains(old_r[i]));
                assert(old_r[i] != xv);
                lemma_text_lt_total(old_r[i], xv);
            } else if i == p {
                assert(text_lt(xv, old_r[p as int]));
                if j - 1 > p {
                    assert(text_lt(old_r[p as int], old_r[j - 1]));
                    lemma_text_lt_transitive(xv, old_r[p as int], old_r[j - 1]);
                }
            } else {
                assert(text_lt(old_r[i], old_r[j - 1]));
            }
        }
        assert forall|s: Seq<char>| #[trigger] nr.contains(s) <==> vv.take(k + 1).contains(s) by {
            assert(vv.take(k + 1) =~= vv.take(k as int).push(xv));
            crate::grammar::validity::lemma_push_contains(vv.take(k as int), xv);
            if nr.contains(s) {
                let q = choose|q: int| 0 <= q < nr.len() && nr[q] == s;
                if q < p {
                    assert(old_r.contains(old_r[q]));
                } else if q > p {
                    assert(old_r.contains(old_r[q - 1]));
                } else {
                }
            }
            if vv.take(k + 1).contains(s) {
                if s == xv {
                    assert(nr[p as int] == xv);
                } else {
                    assert(vv.take(k as int).contains(s));
                    assert(old_r.contains(s));
                    let q = choose|q: int| 0 <= q < old_r.len() && old_r[q] == s;
                    if q < p {
                        assert(nr[q] == s);
                    } else {
                        assert(nr[q + 1] == s);
                    }
                }
            }
        }
        k = k + 1;
    }
    assert(vv.take(v.len() as int) =~= vv);
    let ghost rv = r.deep_view();
    assert(rv.no_duplicates()) by {
        assert forall|i: int, j: int| 0 <= i < rv.len() && 0 <= j < rv.len() && i != j implies rv[i] != rv[j] by {
            if i < j {
                assert(text_lt(rv[i], rv[j]));
                if rv[i] == rv[j] {
                    lemma_text_lt_irreflexive(rv[i]);
                }
            } else {
                assert(text_lt(rv[j], rv[i]));
                if rv[i] == rv[j] {
                    lemma_text_lt_irreflexive(rv[i]);
                }
            }
        }
    }
    assert(names(rv) =~= names(vv));
    r
}

} // verus!
