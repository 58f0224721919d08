//! Escaping and unescaping of string-literal text.
//!
//! `escape` substitutes `"` -> `\"`, `\` -> `\\`, and the five control
//! characters backspace, form feed, newline, carriage return and tab by
//! their two-character escapes; every other character passes through.
//! `unescape` is its exact inverse: one stateful left-to-right scan that
//! treats a backslash followed by one of `" n r t b f \` as a single
//! escape unit. A backslash followed by anything else, and a trailing
//! lone backslash, stay literal backslashes.

use vstd::prelude::*;
use vstd::string::StrSliceExecFns;
use crate::text::push_char;

verus! {

/// The escape sequence `escape` emits for one character.
pub open spec fn escape_char(c: char) -> Seq<char> {
    if c == '"' {
        seq!['\\', '"']
    } else if c == '\\' {
        seq!['\\', '\\']
    } else if c == '\u{8}' {
        seq!['\\', 'b']
    } else if c == '\u{c}' {
        seq!['\\', 'f']
    } else if c == '\n' {
        seq!['\\', 'n']
    } else if c == '\r' {
        seq!['\\', 'r']
    } else if c == '\t' {
        seq!['\\', 't']
    } else {
        seq![c]
    }
}

/// The escaped form of a whole text.
pub open spec fn escape_model(s: Seq<char>) -> Seq<char>
    decreases s.len(),
{
    if s.len() == 0 {
        Seq::empty()
    } else {
        escape_char(s[0]) + escape_model(s.drop_first())
    }
}

/// Whether `c` may follow a backslash as the second half of an escape unit.
pub open spec fn is_escape_code(c: char) -> bool {
    c == '"' || c == 'n' || c == 'r' || c == 't' || c == 'b' || c == 'f' || c == '\\'
}

/// The character an escape unit `\c` stands for.
pub open spec fn unescape_code(c: char) -> char {
    if c == 'n' {
        '\n'
    } else if c == 'r' {
        '\r'
    } else if c == 't' {
        '\t'
    } else if c == 'b' {
        '\u{8}'
    } else if c == 'f' {
        '\u{c}'
    } else {
        c
    }
}

/// The unescaped form of a whole text.
pub open spec fn unescape_model(s: Seq<char>) -> Seq<char>
    decreases s.len(),
{
    if s.len() == 0 {
        Seq::empty()
    } else if s[0] == '\\' && s.len() >= 2 && is_escape_code(s[1]) {
        seq![unescape_code(s[1])] + unescape_model(s.skip(2))
    } else {
        seq![s[0]] + unescape_model(s.drop_first())
    }
}

/// Escaping a text and then unescaping it gives the text back.
pub proof fn lemma_unescape_escape(s: Seq<char>)
    ensures
        unescape_model(escape_model(s)) == s,
    decreases s.len(),
{
    if s.len() == 0 {
        assert(unescape_model(escape_model(s)) =~= s);
    } else {
        let c = s[0];
        let rest = s.drop_first();
        lemma_unescape_escape(rest);
        let e = escape_model(s);
        assert(e == escape_char(c) + escape_model(rest));
        if escape_char(c).len() == 2 {
            assert(e[0] == '\\' && e[1] == escape_char(c)[1]);
            assert(is_escape_code(e[1]));
            assert(unescape_code(e[1]) == c);
            assert(e.skip(2) =~= escape_model(rest));
            assert(unescape_model(e) == seq![c] + unescape_model(escape_model(rest)));
            assert(unescape_model(e) =~= s);
        } else {
            assert(escape_char(c) == seq![c]);
            assert(e[0] == c);
            assert(c != '\\');
            assert(e.drop_first() =~= escape_model(rest));
            assert(unescape_model(e) == seq![c] + unescape_model(escape_model(rest)));
            assert(unescape_model(e) =~= s);
        }
    }
}

/// `escape_model` over a text grown by one character at the end.
pub proof fn lemma_escape_model_push(s: Seq<char>, c: char)
    ensures
        escape_model(s.push(c)) == escape_model(s) + escape_char(c),
    decreases s.len(),
{
    if s.len() == 0 {
        assert(s.push(c)[0] == c);
        assert(s.push(c).drop_first() =~= Seq::<char>::empty());
        assert(escape_model(s.push(c)) == escape_char(c) + escape_model(Seq::<char>::empty()));
        assert(escape_char(c) + Seq::<char>::empty() =~= escape_char(c));
        assert(escape_model(s) + escape_char(c) =~= escape_char(c));
    } else {
        lemma_escape_model_push(s.drop_first(), c);
        assert(s.push(c).drop_first() =~= s.drop_first().push(c));
        assert(escape_model(s.push(c)) == escape_char(s[0]) + escape_model(s.drop_first().push(c)));
        assert(escape_char(s[0]) + (escape_model(s.drop_first()) + escape_char(c)) =~= (escape_char(
            s[0],
        ) + escape_model(s.drop_first())) + escape_char(c));
    }
}

/// The canonical escaped form of `string`: `"` and `\` gain a leading
/// backslash, and the five control characters become their two-character
/// escapes.
pub fn escape(string: &str) -> (r: String)
    ensures
        r@ == escape_model(string@),
{
    let n = string.unicode_len();
    let mut escaped = String::new();
    let mut i: usize = 0;
    while i < n
        invariant
            n == string@.len(),
            i <= n,
            escaped@ == escape_model(string@.subrange(0, i as int)),
        decreases n - i,
    {
        let c = string.get_char(i);
        if c == '"' {
            push_char(&mut escaped, '\\');
            push_char(&mut escaped, '"');
        } else if c == '\\' {
            push_char(&mut escaped, '\\');
            push_char(&mut escaped, '\\');
        } else if c == '\u{8}' {
            push_char(&mut escaped, '\\');
            push_char(&mut escaped, 'b');
        } else if c == '\u{c}' {
            push_char(&mut escaped, '\\');
            push_char(&mut escaped, 'f');
        } else if c == '\n' {
            push_char(&mut escaped, '\\');
            push_char(&mut escaped, 'n');
        } else if c == '\r' {
            push_char(&mut escaped, '\\');
            push_char(&mut escaped, 'r');
        } else if c == '\t' {
            push_char(&mut escaped, '\\');
            push_char(&mut escaped, 't');
        } else {
            push_char(&mut escaped, c);
        }
        proof {
            lemma_escape_model_push(string@.subrange(0, i as int), c);
            assert(string@.subrange(0, i as int).push(c) =~= string@.subrange(0, i + 1));
            assert(escaped@ =~= escape_model(string@.subrange(0, i as int)) + escape_char(c));
        }
        i = i + 1;
    }
    proof {
        assert(string@.subrange(0, n as int) =~= string@);
    }
    escaped
}

/// The unescaped form of `string`, recovering the text an escaped literal
/// stands for.
pub fn unescape(string: &str) -> (r: String)
    ensures
        r@ == unescape_model(string@),
{
    let n = string.unicode_len();
    let mut out = String::new();
    let mut i: usize = 0;
    proof {
        assert(string@.skip(0) =~= string@);
        assert(out@ + unescape_model(string@) =~= unescape_model(string@));
    }
    while i < n
        invariant
            n == string@.len(),
            i <= n,
            out@ + unescape_model(string@.skip(i as int)) == unescape_model(string@),
        decreases n - i,
    {
        let c = string.get_char(i);
        proof {
            assert(string@.skip(i as int)[0] == c);
        }
        if c == '\\' && i + 1 < n {
            let d = string.get_char(i + 1);
            proof {
                assert(string@.skip(i as int)[1] == d);
            }
            if d == '"' || d == 'n' || d == 'r' || d == 't' || d == 'b' || d == 'f' || d == '\\' {
                if d == 'n' {
                    push_char(&mut out, '\n');
                } else if d == 'r' {
                    push_char(&mut out, '\r');
                } else if d == 't' {
                    push_char(&mut out, '\t');
                } else if d == 'b' {
                    push_char(&mut out, '\u{8}');
                } else if d == 'f' {
                    push_char(&mut out, '\u{c}');
                } else {
                    push_char(&mut out, d);
                }
                proof {
                    assert(string@.skip(i as int).skip(2) =~= string@.skip(i + 2));
                    assert(unescape_model(string@.skip(i as int)) == seq![unescape_code(d)]
                        + unescape_model(string@.skip(i + 2)));
                    assert(out@ + unescape_model(string@.skip(i + 2)) =~= unescape_model(string@));
                }
                i = i + 2;
                continue ;
            }
        }
        push_char(&mut out, c);
        proof {
            assert(string@.skip(i as int).drop_first() =~= string@.skip(i + 1));
            assert(unescape_model(string@.skip(i as int)) == seq![c] + unescape_model(
                string@.skip(i + 1),
            ));
            assert(out@ + unescape_model(string@.skip(i + 1)) =~= unescape_model(string@));
        }
        i = i + 1;
    }
    proof {
        assert(string@.skip(n as int) =~= Seq::<char>::empty());
        assert(out@ =~= unescape_model(string@));
    }
    out
}

} // verus!
