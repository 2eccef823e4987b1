//! Character-level string helpers shared by the grammar code.
use vstd::prelude::*;

verus! {

/// Pushing onto a vector pushes the element's deep view onto the vector's.
pub proof fn lemma_deep_view_push<T: DeepView>(before: Seq<T>, after: Seq<T>, x: T)
    requires
        after == before.push(x),
    ensures
        Seq::new(after.len(), |i: int| after[i].deep_view()) == Seq::new(
            before.len(),
            |i: int| before[i].deep_view(),
        ).push(x.deep_view()),
{
    assert(Seq::new(after.len(), |i: int| after[i].deep_view()) =~= Seq::new(
        before.len(),
        |i: int| before[i].deep_view(),
    ).push(x.deep_view()));
}

/// Updating a vector updates the deep view at the same place.
pub proof fn lemma_deep_view_update<T: DeepView>(before: Seq<T>, after: Seq<T>, i: int, x: T)
    requires
        0 <= i < before.len(),
        after == before.update(i, x),
    ensures
        Seq::new(after.len(), |j: int| after[j].deep_view()) == Seq::new(
            before.len(),
            |j: int| before[j].deep_view(),
        ).update(i, x.deep_view()),
{
    assert(Seq::new(after.len(), |j: int| after[j].deep_view()) =~= Seq::new(
        before.len(),
        |j: int| before[j].deep_view(),
    ).update(i, x.deep_view()));
}

/// The characters of `s`, in order.
pub fn chars_of(s: &str) -> (v: Vec<char>)
    ensures
        v@ == s@,
{
    let mut v: Vec<char> = Vec::new();
    for c in it: s.chars()
        invariant
            v@ == it.seq().take(it.index() as int),
    {
        v.push(c);
    }
    v
}

/// Appends `c` to `s` with `String::push`. The contract claims what the method's
/// documentation says: the string afterwards is the old one followed by `c`.
#[verifier::external_body]
pub(crate) fn push_char(s: &mut String, c: char)
    ensures
        final(s)@ == old(s)@.push(c),
{
    s.push(c);
}

/// An owned copy of `s`.
pub fn owned(s: &str) -> (r: String)
    ensures
        r@ == s@,
{
    <String as StringExecFns>::from_str(s)
}

/// `a` followed by `b`.
pub fn concat(a: &str, b: &str) -> (r: String)
    ensures
        r@ == a@ + b@,
{
    let mut r = owned(a);
    r.append(b);
    r
}

/// The string made of `cs[lo..hi]`.
pub fn string_from_range(cs: &Vec<char>, lo: usize, hi: usize) -> (r: String)
    requires
        lo <= hi <= cs.len(),
    ensures
        r@ == cs@.subrange(lo as int, hi as int),
{
    let mut r = String::new();
    let mut i = lo;
    while i < hi
        invariant
            lo <= i <= hi <= cs.len(),
            r@ == cs@.subrange(lo as int, i as int),
        decreases hi - i,
    {
        push_char(&mut r, cs[i]);
        i = i + 1;
        assert(r@ =~= cs@.subrange(lo as int, i as int));
    }
    r
}

/// Whether two strings hold the same characters.
pub fn str_eq(a: &str, b: &str) -> (r: bool)
    ensures
        r == (a@ == b@),
{
    let x = chars_of(a);
    let y = chars_of(b);
    if x.len() != y.len() {
        return false;
    }
    let mut i: usize = 0;
    while i < x.len()
        invariant
            x@ == a@,
            y@ == b@,
            x.len() == y.len(),
            i <= x.len(),
            forall|k: int| 0 <= k < i ==> x@[k] == y@[k],
        decreases x.len() - i,
    {
        if x[i] != y[i] {
            return false;
        }
        i = i + 1;
    }
    assert(x@ =~= y@);
    true
}

/// The decimal digit character for `d` (`'0'` to `'9'`).
pub open spec fn digit_char(d: int) -> char {
    (d + 48) as char
}

/// The decimal representation of `n`, without leading zeros.
pub open spec fn decimal(n: nat) -> Seq<char>
    decreases n,
{
    if n < 10 {
        seq![digit_char(n as int)]
    } else {
        decimal(n / 10).push(digit_char((n % 10) as int))
    }
}

/// Appends the decimal representation of `n` to `s`.
pub fn push_decimal(s: &mut String, n: u128)
    ensures
        final(s)@ == old(s)@ + decimal(n as nat),
    decreases n,
{
    if n < 10 {
        let d: u8 = n as u8;
        push_char(s, (d + 48) as char);
        assert(final(s)@ =~= old(s)@ + decimal(n as nat)) by {
            assert(decimal(n as nat) == seq![digit_char(n as int)]);
        }
    } else {
        push_decimal(s, n / 10);
        let d: u8 = (n % 10) as u8;
        push_char(s, (d + 48) as char);
        assert(final(s)@ =~= old(s)@ + decimal(n as nat));
    }
}

/// A decimal digit is never the same as another character class used below.
pub proof fn lemma_decimal_len(n: nat)
    ensures
        decimal(n).len() >= 1,
        forall|i: int| 0 <= i < decimal(n).len() ==> 48 <= #[trigger] (decimal(n)[i] as u32) <= 57,
    decreases n,
{
    if n >= 10 {
        lemma_decimal_len(n / 10);
        assert forall|i: int| 0 <= i < decimal(n).len() implies 48 <= #[trigger] (decimal(n)[i] as u32) <= 57 by {
            if i < decimal(n).len() - 1 {
                assert(decimal(n)[i] == decimal(n / 10)[i]);
            }
        }
    }
}

/// Distinct numbers have distinct decimal representations.
pub proof fn lemma_decimal_injective(a: nat, b: nat)
    requires
        decimal(a) == decimal(b),
    ensures
        a == b,
    decreases a + b,
{
    lemma_decimal_len(a);
    lemma_decimal_len(b);
    if a < 10 && b < 10 {
        assert(decimal(a) == seq![digit_char(a as int)]);
        assert(decimal(b) == seq![digit_char(b as int)]);
        assert(decimal(a)[0] == decimal(b)[0]);
        assert(seq![digit_char(a as int)][0] == digit_char(a as int));
        assert(seq![digit_char(b as int)][0] == digit_char(b as int));
        assert(digit_char(a as int) == digit_char(b as int));
        assert(digit_char(a as int) as u32 == a + 48);
        assert(digit_char(b as int) as u32 == b + 48);
    } else if a < 10 {
        lemma_decimal_len(b / 10);
        assert(decimal(b).len() >= 2);
        assert(false);
    } else if b < 10 {
        lemma_decimal_len(a / 10);
        assert(decimal(a).len() >= 2);
        assert(false);
    } else {
        let da = decimal(a);
        let db = decimal(b);
        assert(da.drop_last() =~= decimal(a / 10));
        assert(db.drop_last() =~= decimal(b / 10));
        lemma_decimal_injective(a / 10, b / 10);
        assert(da.last() == db.last());
        assert(digit_char((a % 10) as int) as u32 == (a % 10) + 48);
        assert(digit_char((b % 10) as int) as u32 == (b % 10) + 48);
        assert((a % 10) == (b % 10));
        assert(a == 10 * (a / 10) + a % 10);
        assert(b == 10 * (b / 10) + b % 10);
    }
}

/// The first index at which `pat` occurs in `s` at or after `k`, or -1 when it does not occur.
pub open spec fn find_from(s: Seq<char>, pat: Seq<char>, k: int) -> int
    decreases s.len() + 1 - k,
{
    if k < 0 || k + pat.len() > s.len() {
        -1
    } else if s.subrange(k, k + pat.len()) == pat {
        k
    } else {
        find_from(s, pat, k + 1)
    }
}

/// `s` with the first occurrence of `pat` replaced by `rep`, or `s` itself when `pat`
/// does not occur; this is what `str::replacen(pat, rep, 1)` returns.
pub open spec fn replace_first(s: Seq<char>, pat: Seq<char>, rep: Seq<char>) -> Seq<char> {
    let k = find_from(s, pat, 0);
    if k < 0 {
        s
    } else {
        s.subrange(0, k) + rep + s.subrange(k + pat.len(), s.len() as int)
    }
}

pub proof fn lemma_find_from_bounds(s: Seq<char>, pat: Seq<char>, k: int)
    requires
        0 <= k,
    ensures
        find_from(s, pat, k) == -1 || (k <= find_from(s, pat, k) && find_from(s, pat, k)
            + pat.len() <= s.len() && s.subrange(
            find_from(s, pat, k),
            find_from(s, pat, k) + pat.len(),
        ) == pat),
    decreases s.len() + 1 - k,
{
    if k + pat.len() <= s.len() && s.subrange(k, k + pat.len()) != pat {
        lemma_find_from_bounds(s, pat, k + 1);
    }
}

/// Whether `pat` occurs in `s` at index `k`.
fn occurs_at(s: &Vec<char>, pat: &Vec<char>, k: usize) -> (r: bool)
    requires
        k + pat.len() <= s.len(),
    ensures
        r == (s@.subrange(k as int, k + pat.len()) == pat@),
{
    let mut j: usize = 0;
    while j < pat.len()
        invariant
            k + pat.len() <= s.len(),
            j <= pat.len(),
            forall|t: int| 0 <= t < j ==> s@[k + t] == pat@[t],
        decreases pat.len() - j,
    {
        if s[k + j] != pat[j] {
            assert(s@.subrange(k as int, k + pat.len())[j as int] != pat@[j as int]);
            return false;
        }
        j = j + 1;
    }
    assert(s@.subrange(k as int, k + pat.len()) =~= pat@);
    true
}

/// The string `s` with its first occurrence of `pat` replaced by `rep`.
pub fn replacen_once(s: &str, pat: &str, rep: &str) -> (r: String)
    ensures
        r@ == replace_first(s@, pat@, rep@),
{
    let cs = chars_of(s);
    let ps = chars_of(pat);
    if ps.len() > cs.len() {
        return owned(s);
    }
    let mut k: usize = 0;
    while k <= cs.len() - ps.len()
        invariant
            cs@ == s@,
            ps@ == pat@,
            ps.len() <= cs.len(),
            k <= cs.len() - ps.len() + 1,
            find_from(s@, pat@, 0) == find_from(s@, pat@, k as int),
        decreases cs.len() + 1 - k,
    {
        if occurs_at(&cs, &ps, k) {
            let mut r = string_from_range(&cs, 0, k);
            r.append(rep);
            let tail = string_from_range(&cs, k + ps.len(), cs.len());
            r.append(tail.as_str());
            return r;
        }
        if k == cs.len() - ps.len() {
            assert(find_from(s@, pat@, k as int + 1) == -1);
            return owned(s);
        }
        k = k + 1;
    }
    owned(s)
}

} // verus!

verus! {

/// A copy of a list of strings.
pub fn copy_strings(v: &Vec<String>) -> (r: Vec<String>)
    ensures
        r.deep_view() == v.deep_view(),
{
    let mut r: Vec<String> = Vec::new();
    let mut i: usize = 0;
    while i < v.len()
        invariant
            i <= v.len(),
            r.deep_view() =~= v.deep_view().take(i as int),
        decreases v.len() - i,
    {
        let ghost before = r@;
        r.push(v[i].clone());
        proof {
            lemma_deep_view_push(before, r@, r@.last());
        }
        i = i + 1;
    }
    assert(v.deep_view().take(i as int) =~= v.deep_view());
    r
}

} // verus!

verus! {

/// `pre`, the decimal digits of `k`, then `post`.
pub open spec fn framed(pre: Seq<char>, k: nat, post: Seq<char>) -> Seq<char> {
    pre + decimal(k) + post
}

/// The least `k` from `c` on whose framed name is not in `names` (searching no
/// further than one past the number of names).
pub open spec fn least_free(names: Seq<Seq<char>>, pre: Seq<char>, post: Seq<char>, c: nat) -> nat
    decreases names.len() + 1 - c,
{
    if c > names.len() {
        c
    } else if !names.contains(framed(pre, c, post)) {
        c
    } else {
        least_free(names, pre, post, c + 1)
    }
}

proof fn lemma_framed_injective(pre: Seq<char>, post: Seq<char>, a: nat, b: nat)
    requires
        framed(pre, a, post) == framed(pre, b, post),
    ensures
        a == b,
{
    let da = decimal(a);
    let db = decimal(b);
    assert(framed(pre, a, post).len() == pre.len() + da.len() + post.len());
    assert(framed(pre, b, post).len() == pre.len() + db.len() + post.len());
    assert(da.len() == db.len());
    assert(da =~= framed(pre, a, post).subrange(pre.len() as int, (pre.len() + da.len()) as int));
    assert(db =~= framed(pre, b, post).subrange(pre.len() as int, (pre.len() + db.len()) as int));
    lemma_decimal_injective(a, b);
}

pub proof fn lemma_least_free_from(names: Seq<Seq<char>>, pre: Seq<char>, post: Seq<char>, c: nat)
    ensures
        least_free(names, pre, post, c) >= c,
        forall|d: nat| c <= d < least_free(names, pre, post, c) ==> names.contains(#[trigger] framed(pre, d, post)),
        least_free(names, pre, post, c) <= names.len() ==> !names.contains(framed(pre, least_free(names, pre, post, c), post)),
    decreases names.len() + 1 - c,
{
    if c <= names.len() && names.contains(framed(pre, c, post)) {
        lemma_least_free_from(names, pre, post, c + 1);
    }
}

/// Among the numbers up to the count of names, one gives a framed name not in the
/// list: the least free number is at most that count.
pub proof fn lemma_least_free(names: Seq<Seq<char>>, pre: Seq<char>, post: Seq<char>)
    ensures
        least_free(names, pre, post, 0) <= names.len(),
        !names.contains(framed(pre, least_free(names, pre, post, 0), post)),
        forall|d: nat| d < least_free(names, pre, post, 0) ==> names.contains(#[trigger] framed(pre, d, post)),
{
    lemma_least_free_from(names, pre, post, 0);
    let m = least_free(names, pre, post, 0);
    if m > names.len() {
        let n = names.len() as int;
        let x = vstd::set_lib::set_int_range(0, n + 1);
        vstd::set_lib::lemma_int_range(0, n + 1);
        let f = |c: int| names.index_of(framed(pre, c as nat, post));
        let y = x.map(f);
        assert(vstd::relations::injective_on(f, x)) by {
            assert forall|a: int, b: int| x.contains(a) && x.contains(b) && #[trigger] f(a) == #[trigger] f(b) implies a == b by {
                assert(names.contains(framed(pre, a as nat, post)));
                assert(names.contains(framed(pre, b as nat, post)));
                lemma_framed_injective(pre, post, a as nat, b as nat);
            }
        }
        vstd::set_lib::lemma_map_size(x, y, f);
        let z = vstd::set_lib::set_int_range(0, n);
        vstd::set_lib::lemma_int_range(0, n);
        assert(y.subset_of(z)) by {
            assert forall|v: int| y.contains(v) implies z.contains(v) by {
                let c = choose|c: int| x.contains(c) && f(c) == v;
                assert(names.contains(framed(pre, c as nat, post)));
            }
        }
        vstd::set_lib::lemma_len_subset(y, z);
        assert(false);
    }
}

} // verus!
