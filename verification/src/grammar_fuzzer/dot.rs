//! Escaping node labels for Graphviz dot output.
use vstd::prelude::*;
use crate::text::chars_of;
use crate::text::push_char;
use crate::text::push_decimal;
use crate::text::decimal;


verus! {

/// The low byte of a character's code point (what `c as u8` gives).
pub open spec fn low_byte(c: char) -> nat {
    ((c as u32) % 256) as nat
}

/// A lower-case hexadecimal digit.
pub open spec fn hex_digit(d: int) -> char {
    if d < 10 {
        (48 + d) as char
    } else {
        (87 + d) as char
    }
}

/// The escape of one character: `\`, `,`, `<`, `>` and `"` get a backslash before
/// them, other printable ASCII stays, and anything else becomes `\\x` and two
/// hexadecimal digits of its low byte; with `show_ascii`, ` (code)` follows.
pub open spec fn escape_char(c: char, show_ascii: bool) -> Seq<char> {
    (if c == '\\' || c == ',' || c == '<' || c == '>' || c == '"' {
        seq!['\\', c]
    } else if (c as u32) < 128 && 31 < (c as u32) {
        seq![c]
    } else {
        seq!['\\', '\\', 'x', hex_digit(low_byte(c) as int / 16), hex_digit(low_byte(c) as int % 16)]
    }) + if show_ascii {
        seq![' ', '('] + decimal(low_byte(c)) + seq![')']
    } else {
        Seq::empty()
    }
}

/// The escapes of all characters of `s`, in order.
pub open spec fn escape_all(s: Seq<char>, show_ascii: bool) -> Seq<char>
    decreases s.len(),
{
    if s.len() == 0 {
        Seq::empty()
    } else {
        escape_all(s.drop_last(), show_ascii) + escape_char(s.last(), show_ascii)
    }
}

/// `s` with every newline written as a backslash and `n`.
pub open spec fn newlines_written(s: Seq<char>) -> Seq<char>
    decreases s.len(),
{
    if s.len() == 0 {
        Seq::empty()
    } else {
        newlines_written(s.drop_last()) + if s.last() == '\n' {
            seq!['\\', 'n']
        } else {
            seq![s.last()]
        }
    }
}

/// What `dot_escape` returns: `\\n (10)` for a lone newline shown with its code,
/// otherwise the escapes of the text with its newlines written out. When
/// `show_ascii` is not given, codes are shown for a text of one byte, that is one
/// ASCII character.
pub open spec fn dot_escaped(s: Seq<char>, show_ascii: Option<bool>) -> Seq<char> {
    let show = match show_ascii {
        Some(b) => b,
        None => s.len() == 1 && (s[0] as u32) < 128,
    };
    if show && s == seq!['\n'] {
        seq!['\\', '\\', 'n', ' ', '(', '1', '0', ')']
    } else {
        escape_all(newlines_written(s), show)
    }
}

fn hex_digit_exec(d: u8) -> (c: char)
    requires
        d < 16,
    ensures
        c == hex_digit(d as int),
{
    if d < 10 {
        (48 + d) as char
    } else {
        (87 + d) as char
    }
}

/// Escapes a label for Graphviz dot.
pub fn dot_escape(s: &String, show_ascii: Option<bool>) -> (r: String)
    ensures
        r@ == dot_escaped(s@, show_ascii),
{
    let cs = chars_of(s.as_str());
    let should_show_ascii = match show_ascii {
        Some(b) => b,
        None => cs.len() == 1 && (cs[0] as u32) < 128,
    };
    if should_show_ascii && cs.len() == 1 && cs[0] == '\n' {
        let mut r = String::new();
        push_char(&mut r, '\\');
        push_char(&mut r, '\\');
        push_char(&mut r, 'n');
        push_char(&mut r, ' ');
        push_char(&mut r, '(');
        push_char(&mut r, '1');
        push_char(&mut r, '0');
        push_char(&mut r, ')');
        assert(cs@ =~= seq!['\n']);
        assert(r@ =~= seq!['\\', '\\', 'n', ' ', '(', '1', '0', ')']);
        return r;
    }
    assert(!(should_show_ascii && s@ == seq!['\n'])) by {
        if s@ == seq!['\n'] {
            assert(cs@.len() == 1 && cs@[0] == '\n');
        }
    }
    let mut written: Vec<char> = Vec::new();
    let mut i: usize = 0;
    while i < cs.len()
        invariant
            i <= cs.len(),
            written@ == newlines_written(cs@.take(i as int)),
        decreases cs.len() - i,
    {
        assert(cs@.take(i + 1).drop_last() =~= cs@.take(i as int));
        if cs[i] == '\n' {
            written.push('\\');
            written.push('n');
        } else {
            written.push(cs[i]);
        }
        i = i + 1;
        assert(written@ =~= newlines_written(cs@.take(i as int)));
    }
    assert(cs@.take(cs.len() as int) =~= cs@);
    let mut escaped_s = String::new();
    let mut j: usize = 0;
    while j < written.len()
        invariant
            j <= written.len(),
            escaped_s@ == escape_all(written@.take(j as int), should_show_ascii),
        decreases written.len() - j,
    {
        let c = written[j];
        let ghost before = escaped_s@;
        assert(written@.take(j + 1).drop_last() =~= written@.take(j as int));
        if c == '\\' || c == ',' || c == '<' || c == '>' || c == '"' {
            push_char(&mut escaped_s, '\\');
            push_char(&mut escaped_s, c);
        } else if (c as u32) < 128 && 31 < (c as u32) {
            push_char(&mut escaped_s, c);
        } else {
            let b: u8 = ((c as u32) % 256) as u8;
            push_char(&mut escaped_s, '\\');
            push_char(&mut escaped_s, '\\');
            push_char(&mut escaped_s, 'x');
            push_char(&mut escaped_s, hex_digit_exec(b / 16));
            push_char(&mut escaped_s, hex_digit_exec(b % 16));
        }
        if should_show_ascii {
            let b: u8 = ((c as u32) % 256) as u8;
            push_char(&mut escaped_s, ' ');
            push_char(&mut escaped_s, '(');
            push_decimal(&mut escaped_s, b as u128);
            push_char(&mut escaped_s, ')');
        }
        assert(escaped_s@ =~= before + escape_char(c, should_show_ascii));
        j = j + 1;
    }
    assert(written@.take(written.len() as int) =~= written@);
    escaped_s
}

} // verus!
