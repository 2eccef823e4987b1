//! Character-class rules and the layout pass that turns braces into indentation.
use vstd::prelude::*;
use crate::text::chars_of;
use crate::text::push_char;
use crate::text::lemma_deep_view_push;
use super::Union;
use super::Expansion;
use super::ExpansionV;

verus! {

/// The character classes that rules can be built from.
pub enum CharRange {
    Digit,
    NonZeroDigit,
    Letters,
}

/// The `i`-th ASCII letter: `a` to `z`, then `A` to `Z`.
pub open spec fn letter(i: int) -> char {
    if i < 26 {
        (97 + i) as char
    } else {
        (65 + i - 26) as char
    }
}

/// The expansions of a character class, one single-character text per member.
pub open spec fn char_range(t: CharRange) -> Seq<ExpansionV> {
    match t {
        CharRange::Digit => Seq::new(10, |i: int| Union::OnlyA(seq![(48 + i) as char])),
        CharRange::NonZeroDigit => Seq::new(9, |i: int| Union::OnlyA(seq![(49 + i) as char])),
        CharRange::Letters => Seq::new(52, |i: int| Union::OnlyA(seq![letter(i)])),
    }
}

/// The string holding the single character `c`.
fn one_char(c: char) -> (r: String)
    ensures
        r@ == seq![c],
{
    let mut s = String::new();
    push_char(&mut s, c);
    assert(s@ =~= seq![c]);
    s
}

/// The expansions of a character class: the ten digits, the nine nonzero digits,
/// or the 52 ASCII letters (lower case first), each as its own text.
pub fn range_chars_as_str(type_of_range: CharRange) -> (r: Vec<Expansion>)
    ensures
        r.deep_view() == char_range(type_of_range),
{
    let ghost want = char_range(type_of_range);
    let (lo, n): (u8, u8) = match type_of_range {
        CharRange::Digit => (48, 10),
        CharRange::NonZeroDigit => (49, 9),
        CharRange::Letters => (0, 52),
    };
    let letters = match type_of_range {
        CharRange::Letters => true,
        _ => false,
    };
    let mut res: Vec<Expansion> = Vec::new();
    let mut i: u8 = 0;
    while i < n
        invariant
            want == char_range(type_of_range),
            n == want.len(),
            i <= n,
            letters ==> lo == 0 && n == 52 && want == char_range(CharRange::Letters),
            !letters ==> n <= 10 && (forall|k: int| 0 <= k < n ==> want[k] == Union::<Seq<char>, (Seq<char>, super::options::OptsV)>::OnlyA(seq![(lo + k) as char])) && 48 <= lo <= 49,
            res.deep_view() =~= want.take(i as int),
        decreases n - i,
    {
        let c: char = if letters {
            if i < 26 {
                (97 + i) as char
            } else {
                (65 + (i - 26)) as char
            }
        } else {
            (lo + i) as char
        };
        let s = one_char(c);
        let ghost before = res@;
        res.push(Union::OnlyA(s));
        proof {
            lemma_deep_view_push(before, res@, res@.last());
            assert(want.take(i + 1) =~= want.take(i as int).push(want[i as int]));
        }
        i = i + 1;
    }
    assert(want.take(n as int) =~= want);
    res
}

/// How many `{` minus how many `}` occur in `s`.
pub open spec fn depth(s: Seq<char>) -> int
    decreases s.len(),
{
    if s.len() == 0 {
        0
    } else {
        depth(s.drop_last()) + if s.last() == '{' {
            1int
        } else if s.last() == '}' {
            -1int
        } else {
            0int
        }
    }
}

/// `n` spaces.
pub open spec fn spaces(n: int) -> Seq<char> {
    Seq::new(if n > 0 { n as nat } else { 0 }, |i: int| ' ')
}

/// The text with braces dropped and, after each newline, one space for each brace
/// that is open at that point.
pub open spec fn indented(s: Seq<char>) -> Seq<char>
    decreases s.len(),
{
    if s.len() == 0 {
        Seq::empty()
    } else {
        let p = s.drop_last();
        let c = s.last();
        indented(p) + if c == '{' || c == '}' {
            Seq::empty()
        } else if c == '\n' {
            seq!['\n'] + spaces(depth(p))
        } else {
            seq![c]
        }
    }
}

/// The indented text holds no brace.
pub proof fn lemma_indented_no_braces(s: Seq<char>)
    ensures
        forall|i: int| 0 <= i < indented(s).len() ==> #[trigger] indented(s)[i] != '{' && indented(s)[i] != '}',
    decreases s.len(),
{
    if s.len() > 0 {
        let p = s.drop_last();
        lemma_indented_no_braces(p);
        let c = s.last();
        let tail = if c == '{' || c == '}' {
            Seq::empty()
        } else if c == '\n' {
            seq!['\n'] + spaces(depth(p))
        } else {
            seq![c]
        };
        assert(indented(s) == indented(p) + tail);
        assert forall|i: int| 0 <= i < indented(s).len() implies #[trigger] indented(s)[i] != '{' && indented(s)[i] != '}' by {
            if i >= indented(p).len() {
                assert(indented(s)[i] == tail[i - indented(p).len()]);
            } else {
                assert(indented(s)[i] == indented(p)[i]);
            }
        }
    }
}

/// Every character before a newline that gets spaces (one with a brace open before
/// it) is ASCII.
pub open spec fn indent_ok(s: Seq<char>) -> bool {
    forall|i: int, j: int|
        0 <= i < j < s.len() && s[j] == '\n' && depth(#[trigger] s.take(j)) > 0 ==> (#[trigger] s[i] as u32) < 128
}

/// Whether `replace_scope_with_indent` can take `target` (see `indent_ok`).
pub fn indent_safe(target: &String) -> (r: bool)
    ensures
        r == indent_ok(target@),
{
    let cs = chars_of(target.as_str());
    let mut d: i128 = 0;
    let mut ascii_so_far = true;
    let mut k: usize = 0;
    assert(cs@.take(0) =~= Seq::<char>::empty());
    while k < cs.len()
        invariant
            cs@ == target@,
            k <= cs.len(),
            d == depth(cs@.take(k as int)),
            -(k as int) <= d <= k,
            ascii_so_far == (forall|i: int| 0 <= i < k ==> (cs@[i] as u32) < 128),
            forall|i: int, j: int|
                0 <= i < j < k && cs@[j] == '\n' && depth(#[trigger] cs@.take(j)) > 0 ==> (#[trigger] cs@[i] as u32) < 128,
        decreases cs.len() - k,
    {
        let c = cs[k];
        if c == '\n' && d > 0 && !ascii_so_far {
            let ghost i = choose|i: int| 0 <= i < k && !((cs@[i] as u32) < 128);
            assert(0 <= i < k && cs@[k as int] == '\n' && depth(cs@.take(k as int)) > 0);
            assert(!indent_ok(target@));
            return false;
        }
        assert(cs@.take(k + 1).drop_last() =~= cs@.take(k as int));
        assert(cs@.take(k + 1).last() == c);
        if c == '{' {
            d = d + 1;
        } else if c == '}' {
            d = d - 1;
        }
        if (c as u32) >= 128 {
            ascii_so_far = false;
        }
        k = k + 1;
    }
    true
}

/// Turns block braces into indentation: every newline is followed by as many spaces
/// as there are braces open before it, and the braces are removed. The spaces go in
/// by character position, so every character before a newline that gets spaces
/// must be ASCII.
pub fn replace_scope_with_indent(target: &String) -> (r: String)
    requires
        indent_ok(target@),
    ensures
        r@ == indented(target@),
        forall|i: int| 0 <= i < r@.len() ==> r@[i] != '{' && r@[i] != '}',
{
    proof {
        lemma_indented_no_braces(target@);
    }
    let cs = chars_of(target.as_str());
    let mut result = String::new();
    let mut tab_count: i128 = 0;
    let mut i: usize = 0;
    while i < cs.len()
        invariant
            cs@ == target@,
            i <= cs.len(),
            tab_count == depth(cs@.take(i as int)),
            -(i as int) <= tab_count <= i,
            result@ == indented(cs@.take(i as int)),
        decreases cs.len() - i,
    {
        let ch = cs[i];
        let ghost p = cs@.take(i as int);
        assert(cs@.take(i + 1).drop_last() =~= p);
        assert(cs@.take(i + 1).last() == ch);
        if ch == '{' {
            tab_count = tab_count + 1;
        } else if ch == '}' {
            tab_count = tab_count - 1;
        } else if ch == '\n' {
            push_char(&mut result, '\n');
            let mut k: i128 = 0;
            while k < tab_count
                invariant
                    0 <= k,
                    k <= tab_count || (tab_count < 0 && k == 0),
                    tab_count == depth(p),
                    result@ == indented(p) + seq!['\n'] + spaces(k as int),
                decreases tab_count - k,
            {
                push_char(&mut result, ' ');
                k = k + 1;
                assert(result@ =~= indented(p) + seq!['\n'] + spaces(k as int));
            }
            assert(spaces(k as int) =~= spaces(tab_count as int));
        } else {
            push_char(&mut result, ch);
        }
        i = i + 1;
        assert(result@ =~= indented(cs@.take(i as int)));
    }
    assert(cs@.take(cs.len() as int) =~= cs@);
    result
}

} // verus!
