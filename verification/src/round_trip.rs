//! The round-trip law: rendering a value and reading the text back gives
//! the value again, for every value the notation can denote from text.
//!
//! A value round-trips when it holds no `HashMap` (a map does not pin its
//! key order on re-entry) and no `Error` (the sentinel's rendering is not
//! syntax), every integer is representable, every symbol is a plain
//! symbol token (symbol characters only, not starting with a structural
//! marker, and not spelling an integer, keyword, `nil`, `true` or
//! `false`), every keyword holds symbol characters only, and the nesting
//! stays below `MAX_NESTING_DEPTH`.

use vstd::prelude::*;
use crate::printer::{dec_digits, digit_char, int_model, render_items, render_model};
use crate::reader::{
    all_digits, atom_model, digit_val, digits_value, in_isize_range, int_token_digits,
    int_token_value, is_comment_token, is_digit, is_int_token, is_sep, is_special,
    is_string_token, is_symbol_char, string_body_end, symbol_run_end, token_end, tokens_from,
    tokenize_model, read_form_model, read_seq_model, read_str_model, FormOutcome,
    MAX_NESTING_DEPTH,
};
use crate::types::MalValModel;
use crate::util::{escape_char, escape_model, lemma_unescape_escape};

verus! {

/// Whether `s` reads back as the same symbol it was rendered from.
pub open spec fn plain_symbol(s: Seq<char>) -> bool {
    &&& s.len() >= 1
    &&& (forall|k: int| 0 <= k < s.len() ==> is_symbol_char(#[trigger] s[k]))
    &&& !is_special(s[0])
    &&& s[0] != ':'
    &&& !is_int_token(s)
    &&& s != "nil"@
    &&& s != "true"@
    &&& s != "false"@
}

/// Whether a keyword's text reads back unchanged.
pub open spec fn keyword_text(s: Seq<char>) -> bool {
    forall|k: int| 0 <= k < s.len() ==> is_symbol_char(#[trigger] s[k])
}

/// Whether a value's rendering reads back as the value itself.
pub open spec fn printable(v: MalValModel) -> bool
    decreases v,
{
    match v {
        MalValModel::Atom(s) => plain_symbol(s),
        MalValModel::Boolean(_) => true,
        MalValModel::Error(_) => false,
        MalValModel::HashMap(_) => false,
        MalValModel::Int(n) => in_isize_range(n),
        MalValModel::Keyword(s) => keyword_text(s),
        MalValModel::List(items) => all_printable(items),
        MalValModel::Nil => true,
        MalValModel::String(_) => true,
        MalValModel::Vector(items) => all_printable(items),
    }
}

/// Whether every element is printable.
pub open spec fn all_printable(items: Seq<MalValModel>) -> bool
    decreases items,
{
    if items.len() == 0 {
        true
    } else {
        printable(items[0]) && all_printable(items.drop_first())
    }
}

/// The nesting depth of a value: how many sequence levels it opens.
pub open spec fn form_depth(v: MalValModel) -> int
    decreases v,
{
    match v {
        MalValModel::List(items) => 1 + items_depth(items),
        MalValModel::Vector(items) => 1 + items_depth(items),
        _ => 0,
    }
}

/// The deepest nesting among the elements; `-1` when there are none.
pub open spec fn items_depth(items: Seq<MalValModel>) -> int
    decreases items,
{
    if items.len() == 0 {
        -1
    } else {
        let d0 = form_depth(items[0]);
        let dr = items_depth(items.drop_first());
        if d0 >= dr {
            d0
        } else {
            dr
        }
    }
}

/// The tokens a value's rendering scans into.
pub open spec fn toks_of(v: MalValModel) -> Seq<Seq<char>>
    decreases v,
{
    match v {
        MalValModel::Atom(s) => seq![s],
        MalValModel::Boolean(b) => if b {
            seq!["true"@]
        } else {
            seq!["false"@]
        },
        MalValModel::Error(s) => seq![s],
        MalValModel::HashMap(items) => seq!["{"@] + items_toks(items) + seq!["}"@],
        MalValModel::Int(n) => seq![int_model(n)],
        MalValModel::Keyword(s) => seq![":"@ + s],
        MalValModel::List(items) => seq!["("@] + items_toks(items) + seq![")"@],
        MalValModel::Nil => seq!["nil"@],
        MalValModel::String(s) => seq!["\""@ + escape_model(s) + "\""@],
        MalValModel::Vector(items) => seq!["["@] + items_toks(items) + seq!["]"@],
    }
}

/// The tokens of the elements' renderings, in order.
pub open spec fn items_toks(items: Seq<MalValModel>) -> Seq<Seq<char>>
    decreases items,
{
    if items.len() == 0 {
        Seq::empty()
    } else {
        toks_of(items[0]) + items_toks(items.drop_first())
    }
}

/// Whether position `p` of `s` may follow a token: the end of the text,
/// a separator, or a closing bracket.
pub open spec fn token_boundary(s: Seq<char>, p: int) -> bool {
    p == s.len() || is_sep(s[p]) || s[p] == ')' || s[p] == ']' || s[p] == '}'
}

/// The digits of a non-negative integer are digit characters.
proof fn lemma_dec_digits_are_digits(n: int)
    requires
        n >= 0,
    ensures
        dec_digits(n).len() >= 1,
        all_digits(dec_digits(n)),
    decreases n,
{
    if n < 10 {
        assert(is_digit(digit_char(n)));
    } else {
        lemma_dec_digits_are_digits(n / 10);
        let d = dec_digits(n);
        assert(d == dec_digits(n / 10).push(digit_char(n % 10)));
        assert forall|k: int| 0 <= k < d.len() implies is_digit(#[trigger] d[k]) by {
            if k < d.len() - 1 {
                assert(d[k] == dec_digits(n / 10)[k]);
            } else {
                assert(d[k] == digit_char(n % 10));
            }
        }
    }
}

/// Reading a digit character back gives the digit.
proof fn lemma_digit_char_val(d: int)
    requires
        0 <= d <= 9,
    ensures
        digit_val(digit_char(d)) == d,
{
}

/// The value of the digits of `n` is `n` again.
proof fn lemma_digits_value_dec_digits(n: int)
    requires
        n >= 0,
    ensures
        digits_value(dec_digits(n)) == n,
    decreases n,
{
    if n < 10 {
        lemma_digit_char_val(n);
        let d = dec_digits(n);
        assert(d == seq![digit_char(n)]);
        assert(d.drop_last() =~= Seq::<char>::empty());
        assert(d.last() == digit_char(n));
        assert(digits_value(Seq::<char>::empty()) == 0);
        assert(digits_value(d) == digits_value(d.drop_last()) * 10 + digit_val(d.last()));
    } else {
        lemma_digits_value_dec_digits(n / 10);
        let d = dec_digits(n);
        assert(d == dec_digits(n / 10).push(digit_char(n % 10)));
        assert(d.drop_last() =~= dec_digits(n / 10));
        assert(d.last() == digit_char(n % 10));
        lemma_digit_char_val(n % 10);
        assert(d.len() > 0);
        assert(digits_value(d) == digits_value(d.drop_last()) * 10 + digit_val(d.last()));
        assert(digits_value(d.drop_last()) == n / 10);
        assert(digit_val(d.last()) == n % 10);
        assert(n == 10 * (n / 10) + n % 10) by {
            vstd::arithmetic::div_mod::lemma_fundamental_div_mod(n, 10);
        }
    }
}

/// An integer's rendering is an integer token holding the integer.
proof fn lemma_int_model_token(n: int)
    requires
        in_isize_range(n),
    ensures
        is_int_token(int_model(n)),
        int_token_value(int_model(n)) == n,
        int_model(n).len() >= 1,
        forall|k: int| 0 <= k < int_model(n).len() ==> is_symbol_char(#[trigger] int_model(n)[k]),
        !is_special(int_model(n)[0]),
        int_model(n)[0] != ':',
        int_model(n)[0] != '"',
        int_model(n)[0] != ';',
{
    reveal_strlit("-");
    let t = int_model(n);
    if n < 0 {
        lemma_dec_digits_are_digits(-n);
        assert(t == "-"@ + dec_digits(-n));
        assert(t[0] == '-');
        assert(t.drop_first() =~= dec_digits(-n));
        lemma_digits_value_dec_digits(-n);
        assert(int_token_digits(t) == dec_digits(-n));
        assert(is_int_token(t));
        assert(int_token_value(t) == -digits_value(dec_digits(-n)) == n);
        assert forall|k: int| 0 <= k < t.len() implies is_symbol_char(#[trigger] t[k]) by {
            if k == 0 {
                assert(t[k] == '-');
                assert(is_symbol_char('-'));
            } else {
                assert(t[k] == dec_digits(-n)[k - 1]);
                assert(is_digit(t[k]));
            }
        }
    } else {
        lemma_dec_digits_are_digits(n);
        lemma_digits_value_dec_digits(n);
        assert(t == dec_digits(n));
        assert(is_digit(t[0]));
        assert(t[0] != '-');
        assert(int_token_digits(t) == t);
        assert(is_int_token(t));
        assert(int_token_value(t) == n);
        assert forall|k: int| 0 <= k < t.len() implies is_symbol_char(#[trigger] t[k]) by {
            assert(is_digit(t[k]));
        }
    }
}

/// Over an escaped body, the string scan passes every escape unit and
/// ordinary character and stops just after the closing quote.
proof fn lemma_string_body_scan(t: Seq<char>, k: int, x: Seq<char>)
    requires
        0 <= k,
        k + escape_model(x).len() < t.len(),
        t.subrange(k, k + escape_model(x).len()) == escape_model(x),
        t[k + escape_model(x).len()] == '"',
    ensures
        string_body_end(t, k) == Some(k + escape_model(x).len() + 1),
    decreases x.len(),
{
    let e = escape_model(x);
    if x.len() == 0 {
        assert(e.len() == 0);
        assert(t[k] == '"');
    } else {
        let c = x[0];
        let rest = x.drop_first();
        let ec = escape_char(c);
        assert(e == ec + escape_model(rest));
        assert forall|j: int| 0 <= j < e.len() implies t[k + j] == e[j] by {
            assert(t.subrange(k, k + e.len())[j] == t[k + j]);
        }
        if ec.len() == 2 {
            assert(ec[0] == '\\');
            assert(e[0] == ec[0]);
            assert(t[k + 0] == e[0]);
            assert(t[k] == '\\');
            assert(t.subrange(k + 2, k + 2 + escape_model(rest).len()) =~= escape_model(rest)) by {
                assert forall|j: int| 0 <= j < escape_model(rest).len() implies t.subrange(
                    k + 2,
                    k + 2 + escape_model(rest).len(),
                )[j] == escape_model(rest)[j] by {
                    assert(t[k + 2 + j] == e[2 + j]);
                    assert(e[2 + j] == escape_model(rest)[j]);
                }
            }
            lemma_string_body_scan(t, k + 2, rest);
        } else {
            assert(ec == seq![c]);
            assert(c != '"' && c != '\\');
            assert(e[0] == ec[0]);
            assert(t[k + 0] == e[0]);
            assert(t[k] == c);
            assert(t.subrange(k + 1, k + 1 + escape_model(rest).len()) =~= escape_model(rest)) by {
                assert forall|j: int| 0 <= j < escape_model(rest).len() implies t.subrange(
                    k + 1,
                    k + 1 + escape_model(rest).len(),
                )[j] == escape_model(rest)[j] by {
                    assert(t[k + 1 + j] == e[1 + j]);
                    assert(e[1 + j] == escape_model(rest)[j]);
                }
            }
            lemma_string_body_scan(t, k + 1, rest);
        }
    }
}

/// A maximal run of symbol characters ends exactly where they stop.
proof fn lemma_symbol_run(s: Seq<char>, i: int, m: int)
    requires
        0 <= i <= m <= s.len(),
        forall|k: int| i <= k < m ==> is_symbol_char(#[trigger] s[k]),
        m == s.len() || !is_symbol_char(s[m]),
    ensures
        symbol_run_end(s, i) == m,
    decreases m - i,
{
    if i < m {
        lemma_symbol_run(s, i + 1, m);
    }
}

/// Unfolds one scanning step: a token from `i` to `e`, then the rest.
proof fn lemma_one_token(s: Seq<char>, i: int, e: int)
    requires
        0 <= i < s.len(),
        !is_sep(s[i]),
        token_end(s, i) == e,
        i < e <= s.len(),
    ensures
        tokens_from(s, i) == seq![s.subrange(i, e)] + tokens_from(s, e),
{
}

/// A text of symbol characters scans as one symbol token.
proof fn lemma_tokens_symbol(s: Seq<char>, i: int, t: Seq<char>)
    requires
        t.len() >= 1,
        forall|k: int| 0 <= k < t.len() ==> is_symbol_char(#[trigger] t[k]),
        !is_special(t[0]),
        0 <= i,
        i + t.len() <= s.len(),
        s.subrange(i, i + t.len()) == t,
        token_boundary(s, i + t.len()),
    ensures
        tokens_from(s, i) == seq![t] + tokens_from(s, i + t.len()),
{
    let m = i + t.len();
    assert forall|j: int| 0 <= j < t.len() implies s[i + j] == t[j] by {
        assert(s.subrange(i, m)[j] == s[i + j]);
    }
    assert(s[i] == t[0]);
    assert(is_symbol_char(s[i]));
    assert(!is_sep(s[i]));
    assert forall|k: int| i <= k < m implies is_symbol_char(#[trigger] s[k]) by {
        assert(s[k] == t[k - i]);
    }
    if m < s.len() {
        assert(!is_symbol_char(s[m]));
    }
    lemma_symbol_run(s, i, m);
    assert(s[i] != '~' && s[i] != '"' && s[i] != ';');
    assert(token_end(s, i) == m);
    lemma_one_token(s, i, m);
}

/// A rendered string literal scans as one string token.
proof fn lemma_tokens_string(s: Seq<char>, i: int, x: Seq<char>)
    requires
        0 <= i,
        i + escape_model(x).len() + 2 <= s.len(),
        s.subrange(i, i + escape_model(x).len() + 2) == "\""@ + escape_model(x) + "\""@,
    ensures
        tokens_from(s, i) == seq!["\""@ + escape_model(x) + "\""@] + tokens_from(
            s,
            i + escape_model(x).len() + 2,
        ),
{
    reveal_strlit("\"");
    let t = "\""@ + escape_model(x) + "\""@;
    let r = t.len();
    assert(r == escape_model(x).len() + 2);
    assert forall|j: int| 0 <= j < r implies s[i + j] == t[j] by {
        assert(s.subrange(i, i + r)[j] == s[i + j]);
    }
    assert(t[0] == '"');
    assert(s[i] == '"');
    assert(t[r - 1] == '"');
    assert(s[i + r - 1] == '"');
    assert(s.subrange(i + 1, i + 1 + escape_model(x).len()) =~= escape_model(x)) by {
        assert forall|j: int| 0 <= j < escape_model(x).len() implies s.subrange(
            i + 1,
            i + 1 + escape_model(x).len(),
        )[j] == escape_model(x)[j] by {
            assert(s[i + 1 + j] == t[1 + j]);
            assert(t[1 + j] == escape_model(x)[j]);
        }
    }
    lemma_string_body_scan(s, i + 1, x);
    assert(string_body_end(s, i + 1) == Some(i + r));
    assert(!is_sep(s[i]));
    assert(!is_special(s[i]));
    assert(token_end(s, i) == i + r);
    lemma_one_token(s, i, i + r);
    assert(s.subrange(i, i + r) == t);
}

/// A single structural marker scans as one token.
proof fn lemma_tokens_marker(s: Seq<char>, i: int)
    requires
        0 <= i < s.len(),
        is_special(s[i]),
        s[i] != '~',
        s[i] != '^',
        s[i] != '@',
    ensures
        tokens_from(s, i) == seq![seq![s[i]]] + tokens_from(s, i + 1),
{
    assert(!is_sep(s[i]));
    assert(token_end(s, i) == i + 1);
    lemma_one_token(s, i, i + 1);
    assert(s.subrange(i, i + 1) =~= seq![s[i]]);
}

/// Splits a subrange known to hold a concatenation into its two halves.
proof fn lemma_subrange_decomp<A>(s: Seq<A>, i: int, a: Seq<A>, b: Seq<A>)
    requires
        0 <= i,
        i + a.len() + b.len() <= s.len(),
        s.subrange(i, i + a.len() + b.len()) == a + b,
    ensures
        s.subrange(i, i + a.len()) == a,
        s.subrange(i + a.len(), i + a.len() + b.len()) == b,
{
    let w = a + b;
    assert forall|j: int| 0 <= j < w.len() implies s[i + j] == w[j] by {
        assert(s.subrange(i, i + w.len())[j] == s[i + j]);
    }
    assert(s.subrange(i, i + a.len()) =~= a);
    assert(s.subrange(i + a.len(), i + a.len() + b.len()) =~= b) by {
        assert forall|j: int| 0 <= j < b.len() implies s.subrange(
            i + a.len(),
            i + a.len() + b.len(),
        )[j] == b[j] by {
            assert(s.subrange(i + a.len(), i + a.len() + b.len())[j] == s[i + a.len() + j]);
            assert(s[i + a.len() + j] == w[a.len() + j]);
            assert(w[a.len() + j] == b[j]);
        }
    }
}

/// The characters of the word `nil` are symbol characters.
proof fn lemma_word_tokens(s: Seq<char>, i: int, w: Seq<char>)
    requires
        w == "nil"@ || w == "true"@ || w == "false"@,
        0 <= i,
        i + w.len() <= s.len(),
        s.subrange(i, i + w.len()) == w,
        token_boundary(s, i + w.len()),
    ensures
        tokens_from(s, i) == seq![w] + tokens_from(s, i + w.len()),
{
    reveal_strlit("nil");
    reveal_strlit("true");
    reveal_strlit("false");
    assert forall|k: int| 0 <= k < w.len() implies is_symbol_char(#[trigger] w[k]) by {
        if w == "nil"@ {
            assert(w[0] == 'n' && w[1] == 'i' && w[2] == 'l');
        } else if w == "true"@ {
            assert(w[0] == 't' && w[1] == 'r' && w[2] == 'u' && w[3] == 'e');
        } else {
            assert(w[0] == 'f' && w[1] == 'a' && w[2] == 'l' && w[3] == 's' && w[4] == 'e');
        }
    }
    assert(!is_special(w[0]));
    lemma_tokens_symbol(s, i, w);
}

/// A rendered value scans into its own tokens, then the rest of the
/// text scans on from just after it.
proof fn lemma_tokens_of_render(s: Seq<char>, i: int, v: MalValModel)
    requires
        printable(v),
        0 <= i,
        i + render_model(v).len() <= s.len(),
        s.subrange(i, i + render_model(v).len()) == render_model(v),
        token_boundary(s, i + render_model(v).len()),
    ensures
        tokens_from(s, i) == toks_of(v) + tokens_from(s, i + render_model(v).len()),
    decreases v,
{
    let r = render_model(v).len() as int;
    match v {
        MalValModel::Atom(t) => {
            lemma_tokens_symbol(s, i, t);
        },
        MalValModel::Boolean(b) => {
            lemma_word_tokens(s, i, if b { "true"@ } else { "false"@ });
        },
        MalValModel::Error(_) => {
        },
        MalValModel::HashMap(_) => {
        },
        MalValModel::Int(n) => {
            lemma_int_model_token(n);
            lemma_tokens_symbol(s, i, int_model(n));
        },
        MalValModel::Keyword(t) => {
            reveal_strlit(":");
            let w = ":"@ + t;
            assert forall|k: int| 0 <= k < w.len() implies is_symbol_char(#[trigger] w[k]) by {
                if k == 0 {
                    assert(w[0] == ':');
                    assert(is_symbol_char(':'));
                } else {
                    assert(w[k] == t[k - 1]);
                }
            }
            assert(!is_special(w[0]));
            lemma_tokens_symbol(s, i, w);
        },
        MalValModel::List(items) => {
            reveal_strlit("(");
            reveal_strlit(")");
            assert(render_model(v) == "("@ + render_items(items) + ")"@);
            lemma_tokens_of_seq(s, i, items, render_items(items), "("@, ")"@, '(', ')');
        },
        MalValModel::Nil => {
            lemma_word_tokens(s, i, "nil"@);
        },
        MalValModel::String(x) => {
            reveal_strlit("\"");
            assert(render_model(v) == "\""@ + escape_model(x) + "\""@);
            lemma_tokens_string(s, i, x);
        },
        MalValModel::Vector(items) => {
            reveal_strlit("[");
            reveal_strlit("]");
            assert(render_model(v) == "["@ + render_items(items) + "]"@);
            lemma_tokens_of_seq(s, i, items, render_items(items), "["@, "]"@, '[', ']');
        },
    }
}

/// A rendered bracketed sequence scans into its opener token, the
/// elements' tokens, and its closer token.
proof fn lemma_tokens_of_seq(
    s: Seq<char>,
    i: int,
    items: Seq<MalValModel>,
    m: Seq<char>,
    open: Seq<char>,
    close: Seq<char>,
    oc: char,
    cc: char,
)
    requires
        all_printable(items),
        m == render_items(items),
        open.len() == 1 && open[0] == oc,
        close.len() == 1 && close[0] == cc,
        (oc == '(' && cc == ')') || (oc == '[' && cc == ']'),
        0 <= i,
        i + m.len() + 2 <= s.len(),
        s.subrange(i, i + m.len() + 2) == open + m + close,
        token_boundary(s, i + m.len() + 2),
    ensures
        tokens_from(s, i) == seq![open] + items_toks(items) + seq![close] + tokens_from(
            s,
            i + m.len() + 2,
        ),
    decreases items, 1int,
{
    let w = open + m + close;
    lemma_subrange_decomp(s, i, open + m, close);
    lemma_subrange_decomp(s, i, open, m);
    assert(s[i] == oc) by {
        assert(s.subrange(i, i + 1)[0] == s[i]);
        assert(s.subrange(i, i + 1) == open);
    }
    let p = i + 1 + m.len() as int;
    assert(s[p] == cc) by {
        assert(s.subrange(p, p + 1)[0] == s[p]);
        assert(s.subrange(p, p + 1) == close);
    }
    lemma_tokens_marker(s, i);
    assert(seq![s[i]] =~= open);
    lemma_tokens_of_items(s, i + 1, items);
    lemma_tokens_marker(s, p);
    assert(seq![s[p]] =~= close);
    assert(tokens_from(s, i) =~~= seq![open] + items_toks(items) + seq![close] + tokens_from(
        s,
        i + m.len() + 2,
    ));
}

/// Rendered elements, space-joined and followed by a closing bracket,
/// scan into the elements' tokens.
proof fn lemma_tokens_of_items(s: Seq<char>, i: int, items: Seq<MalValModel>)
    requires
        all_printable(items),
        0 <= i,
        i + render_items(items).len() < s.len(),
        s.subrange(i, i + render_items(items).len()) == render_items(items),
        ({
            let p = i + render_items(items).len();
            s[p] == ')' || s[p] == ']' || s[p] == '}'
        }),
    ensures
        tokens_from(s, i) == items_toks(items) + tokens_from(s, i + render_items(items).len()),
    decreases items, 0int,
{
    if items.len() == 0 {
        assert(items_toks(items) + tokens_from(s, i) =~~= tokens_from(s, i));
    } else if items.len() == 1 {
        lemma_tokens_of_render(s, i, items[0]);
        assert(items_toks(items.drop_first()) =~~= Seq::<Seq<char>>::empty());
        assert(items_toks(items) =~~= toks_of(items[0]));
    } else {
        reveal_strlit(" ");
        let r0 = render_model(items[0]).len() as int;
        let mrest = render_items(items.drop_first());
        assert(render_items(items) == render_model(items[0]) + " "@ + mrest);
        lemma_subrange_decomp(s, i, render_model(items[0]) + " "@, mrest);
        lemma_subrange_decomp(s, i, render_model(items[0]), " "@);
        assert(s[i + r0] == ' ') by {
            assert(s.subrange(i + r0, i + r0 + 1)[0] == s[i + r0]);
            assert(s.subrange(i + r0, i + r0 + 1) == " "@);
        }
        assert(is_sep(s[i + r0]));
        lemma_tokens_of_render(s, i, items[0]);
        assert(tokens_from(s, i + r0) == tokens_from(s, i + r0 + 1));
        lemma_tokens_of_items(s, i + r0 + 1, items.drop_first());
        assert(tokens_from(s, i) =~~= items_toks(items) + tokens_from(
            s,
            i + render_items(items).len(),
        ));
    }
}

/// A value's nesting depth is never negative.
proof fn lemma_form_depth_nonneg(v: MalValModel)
    ensures
        form_depth(v) >= 0,
    decreases v,
{
    match v {
        MalValModel::List(items) => {
            lemma_items_depth_low(items);
        },
        MalValModel::Vector(items) => {
            lemma_items_depth_low(items);
        },
        _ => {
        },
    }
}

/// The elements' deepest nesting is at least `-1`.
proof fn lemma_items_depth_low(items: Seq<MalValModel>)
    ensures
        items_depth(items) >= -1,
    decreases items,
{
    if items.len() > 0 {
        lemma_form_depth_nonneg(items[0]);
        lemma_items_depth_low(items.drop_first());
    }
}

/// A token whose first character is not a structural marker differs
/// from every structural, closer, quote-family and metadata token.
proof fn lemma_atom_token_not_marker(t: Seq<char>)
    requires
        t.len() >= 1,
        !is_special(t[0]),
    ensures
        t != "("@ && t != "["@ && t != "{"@ && t != ")"@ && t != "]"@ && t != "}"@,
        t != "'"@ && t != "`"@ && t != "~"@ && t != "~@"@ && t != "@"@ && t != "^"@,
{
    reveal_strlit("(");
    reveal_strlit("[");
    reveal_strlit("{");
    reveal_strlit(")");
    reveal_strlit("]");
    reveal_strlit("}");
    reveal_strlit("'");
    reveal_strlit("`");
    reveal_strlit("~");
    reveal_strlit("~@");
    reveal_strlit("@");
    reveal_strlit("^");
    assert(is_special("("@[0]));
    assert(is_special("["@[0]));
    assert(is_special("{"@[0]));
    assert(is_special(")"@[0]));
    assert(is_special("]"@[0]));
    assert(is_special("}"@[0]));
    assert(is_special("'"@[0]));
    assert(is_special("`"@[0]));
    assert(is_special("~"@[0]));
    assert(is_special("~@"@[0]));
    assert(is_special("@"@[0]));
    assert(is_special("^"@[0]));
}

/// The first character of every token a printable value renders to.
proof fn lemma_first_token(v: MalValModel)
    requires
        printable(v),
    ensures
        toks_of(v).len() >= 1,
        !is_comment_token(toks_of(v)[0]),
        toks_of(v)[0] != ")"@ && toks_of(v)[0] != "]"@ && toks_of(v)[0] != "}"@,
    decreases v,
{
    reveal_strlit("(");
    reveal_strlit("[");
    reveal_strlit(")");
    reveal_strlit("]");
    reveal_strlit("}");
    reveal_strlit(":");
    reveal_strlit("\"");
    reveal_strlit("nil");
    reveal_strlit("true");
    reveal_strlit("false");
    let t = toks_of(v)[0];
    match v {
        MalValModel::Atom(x) => {
            assert(t[0] != ';');
            lemma_atom_token_not_marker(t);
        },
        MalValModel::Boolean(b) => {
            assert(!is_special(t[0]));
            assert(t[0] != ';');
            lemma_atom_token_not_marker(t);
        },
        MalValModel::Error(_) => {
        },
        MalValModel::HashMap(_) => {
        },
        MalValModel::Int(n) => {
            lemma_int_model_token(n);
            assert(t[0] != ';');
            lemma_atom_token_not_marker(t);
        },
        MalValModel::Keyword(x) => {
            assert(t[0] == ':');
            assert(!is_special(t[0]));
            lemma_atom_token_not_marker(t);
        },
        MalValModel::List(items) => {
            assert(t == "("@);
            assert(t[0] == '(');
            assert(")"@[0] == ')' && "]"@[0] == ']' && "}"@[0] == '}');
        },
        MalValModel::Nil => {
            assert(!is_special(t[0]));
            assert(t[0] != ';');
            lemma_atom_token_not_marker(t);
        },
        MalValModel::String(x) => {
            assert(t[0] == '"');
            assert(!is_special(t[0]));
            lemma_atom_token_not_marker(t);
        },
        MalValModel::Vector(items) => {
            assert(t == "["@);
            assert(t[0] == '[');
            assert(")"@[0] == ')' && "]"@[0] == ']' && "}"@[0] == '}');
        },
    }
}

/// Classifying the token a scalar value renders to gives the value back.
proof fn lemma_atom_model_of_render(v: MalValModel)
    requires
        printable(v),
        !(v is List),
        !(v is Vector),
    ensures
        toks_of(v) == seq![render_model(v)],
        atom_model(render_model(v)) == Ok::<MalValModel, Seq<char>>(v),
{
    reveal_strlit(":");
    reveal_strlit("\"");
    reveal_strlit("nil");
    reveal_strlit("true");
    reveal_strlit("false");
    match v {
        MalValModel::Atom(x) => {
        },
        MalValModel::Boolean(b) => {
            let t = render_model(v);
            assert(!is_digit(t[0]) && t[0] != '-');
            assert(!is_int_token(t));
            assert(t[0] != '"' && t[0] != ':');
            if b {
                assert(t != "nil"@) by {
                    assert(t[0] == 't' && "nil"@[0] == 'n');
                }
            } else {
                assert(t != "nil"@) by {
                    assert(t[0] == 'f' && "nil"@[0] == 'n');
                }
                assert(t != "true"@) by {
                    assert(t[0] == 'f' && "true"@[0] == 't');
                }
            }
        },
        MalValModel::Error(_) => {
        },
        MalValModel::HashMap(_) => {
        },
        MalValModel::Int(n) => {
            lemma_int_model_token(n);
        },
        MalValModel::Keyword(x) => {
            let t = render_model(v);
            assert(t == ":"@ + x);
            assert(t[0] == ':');
            assert(!is_digit(t[0]) && t[0] != '-');
            assert(!is_int_token(t));
            assert(t[0] != '"');
            assert(t.drop_first() =~= x);
        },
        MalValModel::List(_) => {
        },
        MalValModel::Nil => {
            let t = render_model(v);
            assert(t == "nil"@);
            assert(t[0] == 'n');
            assert(!is_digit(t[0]) && t[0] != '-');
            assert(!is_int_token(t));
            assert(t[0] != '"' && t[0] != ':');
        },
        MalValModel::String(x) => {
            let t = render_model(v);
            assert(t == "\""@ + escape_model(x) + "\""@);
            assert(t[0] == '"');
            assert(!is_digit(t[0]) && t[0] != '-');
            assert(!is_int_token(t));
            let el = escape_model(x).len() as int;
            assert(t.len() == escape_model(x).len() + 2);
            assert(t.subrange(1, 1 + el) =~= escape_model(x)) by {
                assert forall|j: int| 0 <= j < el implies t.subrange(1, 1 + el)[j]
                    == escape_model(x)[j] by {
                    assert(t.subrange(1, 1 + el)[j] == t[1 + j]);
                    assert(t[1 + j] == escape_model(x)[j]);
                }
            }
            assert(t[1 + el] == '"');
            lemma_string_body_scan(t, 1, x);
            assert(is_string_token(t));
            assert(t.subrange(1, t.len() - 1) =~= escape_model(x));
            lemma_unescape_escape(x);
        },
        MalValModel::Vector(_) => {
        },
    }
}

/// Reading the tokens of a rendered value from position `i` gives the
/// value back, ending just after its tokens.
proof fn lemma_parse_of_render(toks: Seq<Seq<char>>, i: int, v: MalValModel, depth: int)
    requires
        printable(v),
        0 <= i,
        i + toks_of(v).len() <= toks.len(),
        toks.subrange(i, i + toks_of(v).len()) == toks_of(v),
        0 <= depth,
        depth + form_depth(v) < MAX_NESTING_DEPTH,
    ensures
        read_form_model(toks, i, depth) == (FormOutcome::Value(v), i + toks_of(v).len()),
    decreases v,
{
    let tl = toks_of(v).len() as int;
    lemma_first_token(v);
    assert forall|j: int| 0 <= j < tl implies toks[i + j] == toks_of(v)[j] by {
        assert(toks.subrange(i, i + tl)[j] == toks[i + j]);
    }
    assert(toks[i] == toks_of(v)[0]);
    match v {
        MalValModel::Atom(_) | MalValModel::Boolean(_) | MalValModel::Int(_)
            | MalValModel::Keyword(_) | MalValModel::Nil | MalValModel::String(_) => {
            lemma_atom_model_of_render(v);
            let t = render_model(v);
            assert(toks[i] == t);
            match v {
                MalValModel::Atom(x) => {
                    lemma_atom_token_not_marker(t);
                },
                MalValModel::Int(n) => {
                    lemma_int_model_token(n);
                    lemma_atom_token_not_marker(t);
                },
                MalValModel::Boolean(_) | MalValModel::Nil => {
                    reveal_strlit("nil");
                    reveal_strlit("true");
                    reveal_strlit("false");
                    assert(!is_special(t[0]));
                    lemma_atom_token_not_marker(t);
                },
                MalValModel::Keyword(x) => {
                    reveal_strlit(":");
                    assert(t[0] == ':' && !is_special(t[0]));
                    lemma_atom_token_not_marker(t);
                },
                MalValModel::String(x) => {
                    reveal_strlit("\"");
                    assert(t[0] == '"' && !is_special(t[0]));
                    lemma_atom_token_not_marker(t);
                },
                _ => {
                },
            }
            assert(read_form_model(toks, i, depth) == (FormOutcome::Value(v), i + 1));
        },
        MalValModel::Error(_) => {
        },
        MalValModel::HashMap(_) => {
        },
        MalValModel::List(items) => {
            reveal_strlit("(");
            reveal_strlit(")");
            let its = items_toks(items);
            assert(toks_of(v) == seq!["("@] + its + seq![")"@]);
            lemma_subrange_decomp(toks, i, seq!["("@] + its, seq![")"@]);
            lemma_subrange_decomp(toks, i, seq!["("@], its);
            assert(toks[i] == "("@) by {
                assert(toks.subrange(i, i + 1)[0] == toks[i]);
                assert(toks.subrange(i, i + 1) == seq!["("@]);
            }
            assert(toks[i + 1 + its.len()] == ")"@) by {
                let p = i + 1 + its.len();
                assert(toks.subrange(p, p + 1)[0] == toks[p]);
                assert(toks.subrange(p, p + 1) == seq![")"@]);
            }
            assert(!is_comment_token(toks[i]));
            lemma_items_depth_low(items);
            lemma_parse_of_items(toks, i + 1, items, ")"@, depth + 1);
            assert(read_form_model(toks, i, depth) == (
                FormOutcome::Value(MalValModel::List(items)),
                i + tl,
            ));
        },
        MalValModel::Vector(items) => {
            reveal_strlit("(");
            reveal_strlit("[");
            reveal_strlit("]");
            let its = items_toks(items);
            assert(toks_of(v) == seq!["["@] + its + seq!["]"@]);
            lemma_subrange_decomp(toks, i, seq!["["@] + its, seq!["]"@]);
            lemma_subrange_decomp(toks, i, seq!["["@], its);
            assert(toks[i] == "["@) by {
                assert(toks.subrange(i, i + 1)[0] == toks[i]);
                assert(toks.subrange(i, i + 1) == seq!["["@]);
            }
            assert(toks[i + 1 + its.len()] == "]"@) by {
                let p = i + 1 + its.len();
                assert(toks.subrange(p, p + 1)[0] == toks[p]);
                assert(toks.subrange(p, p + 1) == seq!["]"@]);
            }
            assert(!is_comment_token(toks[i]));
            assert(toks[i] != "("@) by {
                assert("["@[0] != "("@[0]);
            }
            lemma_items_depth_low(items);
            lemma_parse_of_items(toks, i + 1, items, "]"@, depth + 1);
            assert(read_form_model(toks, i, depth) == (
                FormOutcome::Value(MalValModel::Vector(items)),
                i + tl,
            ));
        },
    }
}

/// Reading element tokens up to the closer gives the elements back,
/// ending just after the closer.
proof fn lemma_parse_of_items(
    toks: Seq<Seq<char>>,
    i: int,
    items: Seq<MalValModel>,
    close: Seq<char>,
    depth: int,
)
    requires
        all_printable(items),
        0 <= i,
        i + items_toks(items).len() + 1 <= toks.len(),
        toks.subrange(i, i + items_toks(items).len()) == items_toks(items),
        toks[i + items_toks(items).len()] == close,
        close == ")"@ || close == "]"@ || close == "}"@,
        0 <= depth,
        depth + items_depth(items) < MAX_NESTING_DEPTH,
    ensures
        read_seq_model(toks, i, close, depth) == Ok::<(Seq<MalValModel>, int), Seq<char>>(
            (items, i + items_toks(items).len() + 1),
        ),
    decreases items,
{
    if items.len() == 0 {
        assert(items_toks(items).len() == 0);
        assert(toks[i] == close);
        assert(items =~= Seq::<MalValModel>::empty());
        assert(read_seq_model(toks, i, close, depth) == Ok::<(Seq<MalValModel>, int), Seq<char>>(
            (Seq::empty(), i + 1),
        ));
    } else {
        let v0 = items[0];
        let t0 = toks_of(v0);
        let rest = items.drop_first();
        assert(printable(v0));
        assert(items_toks(items) == t0 + items_toks(rest));
        lemma_subrange_decomp(toks, i, t0, items_toks(rest));
        lemma_first_token(v0);
        assert(toks[i] == t0[0]) by {
            assert(toks.subrange(i, i + t0.len())[0] == toks[i]);
        }
        assert(toks[i] != close);
        assert(!is_comment_token(toks[i]));
        lemma_form_depth_nonneg(v0);
        lemma_items_depth_low(items.drop_first());
        assert(depth + form_depth(v0) < MAX_NESTING_DEPTH);
        lemma_parse_of_render(toks, i, v0, depth);
        let j = i + t0.len() as int;
        lemma_parse_of_items(toks, j, rest, close, depth);
        assert(seq![v0] + rest =~= items);
        assert(read_seq_model(toks, i, close, depth) == Ok::<(Seq<MalValModel>, int), Seq<char>>(
            (items, i + items_toks(items).len() + 1),
        ));
    }
}

/// The round-trip law: for every printable value whose nesting stays
/// below the maximum depth, rendering the value and reading the text
/// back gives the value itself.
pub proof fn lemma_parse_render_round_trip(v: MalValModel)
    requires
        printable(v),
        form_depth(v) < MAX_NESTING_DEPTH,
    ensures
        read_str_model(render_model(v)) == FormOutcome::Value(v),
{
    let s = render_model(v);
    assert(s.subrange(0, s.len() as int) =~= s);
    lemma_tokens_of_render(s, 0, v);
    let toks = tokenize_model(s);
    assert(tokens_from(s, s.len() as int) =~= Seq::<Seq<char>>::empty());
    assert(toks =~= toks_of(v));
    assert(toks.subrange(0, toks_of(v).len() as int) =~= toks_of(v));
    lemma_parse_of_render(toks, 0, v, 0);
}

} // verus!
