//! The reader: a tokenizer producing a flat sequence of untyped token
//! strings, and a recursive-descent parser over them producing a value
//! tree, the explicit "no form" outcome, or a parse error.

use vstd::prelude::*;
use vstd::string::{StrSliceExecFns, StringExecFns};
use crate::text::{chars_to_string, str_eq, to_char_vec};
use crate::types::{MalVal, MalValModel, model_children, lemma_model_children, lemma_model_children_push};
use crate::util::{unescape, unescape_model};

verus! {

/// Forms nested more deeply than this are rejected, so adversarial
/// nesting reports an error instead of exhausting the stack.
pub const MAX_NESTING_DEPTH: usize = 256;

/// Whether `c` is a separator between tokens: whitespace or comma.
/// Separators are discarded, never emitted as tokens.
pub open spec fn is_sep(c: char) -> bool {
    c == ' ' || c == '\t' || c == '\n' || c == '\r' || c == '\u{b}' || c == '\u{c}' || c == ','
}

/// Whether `c` is a single-character structural or prefix marker.
pub open spec fn is_special(c: char) -> bool {
    c == '[' || c == ']' || c == '{' || c == '}' || c == '(' || c == ')' || c == '\'' || c == '`'
        || c == '~' || c == '^' || c == '@'
}

/// Whether `c` may stand inside a plain (non-structural) token: anything
/// but a separator, a bracket, a parenthesis, a quote mark, a double
/// quote, a backtick or the comment marker.
pub open spec fn is_symbol_char(c: char) -> bool {
    !is_sep(c) && c != '[' && c != ']' && c != '{' && c != '}' && c != '(' && c != ')' && c != '\''
        && c != '"' && c != '`' && c != ';'
}

/// The position just after the closing quote of a string literal whose
/// body starts at `k` (the opening quote stands at `k - 1`), or `None`
/// when the literal never closes. An escaped character never terminates
/// the literal.
pub open spec fn string_body_end(s: Seq<char>, k: int) -> Option<int>
    decreases s.len() - k,
{
    if k < 0 || k >= s.len() {
        None
    } else if s[k] == '"' {
        Some(k + 1)
    } else if s[k] == '\\' {
        if k + 1 < s.len() {
            string_body_end(s, k + 2)
        } else {
            None
        }
    } else {
        string_body_end(s, k + 1)
    }
}

/// The end of a line comment that continues at `k`: the position of the
/// next newline, or the end of the text.
pub open spec fn line_comment_end(s: Seq<char>, k: int) -> int
    decreases s.len() - k,
{
    if k < 0 || k >= s.len() || s[k] == '\n' {
        k
    } else {
        line_comment_end(s, k + 1)
    }
}

/// The end of the maximal run of symbol characters starting at `k`.
pub open spec fn symbol_run_end(s: Seq<char>, k: int) -> int
    decreases s.len() - k,
{
    if k < 0 || k >= s.len() || !is_symbol_char(s[k]) {
        k
    } else {
        symbol_run_end(s, k + 1)
    }
}

/// The end of the token starting at the non-separator position `i`,
/// trying in priority order: the two-character marker `~@`; a
/// single-character marker; a string literal (an unterminated one extends
/// to the end of the text); a line comment; a maximal symbol run.
pub open spec fn token_end(s: Seq<char>, i: int) -> int {
    if s[i] == '~' && i + 1 < s.len() && s[i + 1] == '@' {
        i + 2
    } else if is_special(s[i]) {
        i + 1
    } else if s[i] == '"' {
        match string_body_end(s, i + 1) {
            Some(e) => e,
            None => s.len() as int,
        }
    } else if s[i] == ';' {
        line_comment_end(s, i + 1)
    } else {
        symbol_run_end(s, i)
    }
}

/// The tokens of `s` from position `i` on: separators are skipped, and
/// each token extends to its `token_end`.
pub open spec fn tokens_from(s: Seq<char>, i: int) -> Seq<Seq<char>>
    decreases s.len() - i,
{
    if i < 0 || i >= s.len() {
        Seq::empty()
    } else if is_sep(s[i]) {
        tokens_from(s, i + 1)
    } else {
        let e = token_end(s, i);
        let e2 = if i < e <= s.len() {
            e
        } else {
            i + 1
        };
        seq![s.subrange(i, e2)] + tokens_from(s, e2)
    }
}

/// The full token sequence of a text.
pub open spec fn tokenize_model(s: Seq<char>) -> Seq<Seq<char>> {
    tokens_from(s, 0)
}

/// Whether a token is a line comment. Comments are emitted by the
/// tokenizer but are structurally transparent to the parser.
pub open spec fn is_comment_token(t: Seq<char>) -> bool {
    t.len() >= 1 && t[0] == ';'
}

/// Whether `c` is a decimal digit.
pub open spec fn is_digit(c: char) -> bool {
    c == '0' || c == '1' || c == '2' || c == '3' || c == '4' || c == '5' || c == '6' || c == '7'
        || c == '8' || c == '9'
}

/// The value of one decimal digit character.
pub open spec fn digit_val(c: char) -> int {
    if c == '0' {
        0
    } else if c == '1' {
        1
    } else if c == '2' {
        2
    } else if c == '3' {
        3
    } else if c == '4' {
        4
    } else if c == '5' {
        5
    } else if c == '6' {
        6
    } else if c == '7' {
        7
    } else if c == '8' {
        8
    } else {
        9
    }
}

/// Whether every character of `d` is a decimal digit.
pub open spec fn all_digits(d: Seq<char>) -> bool {
    forall|i: int| 0 <= i < d.len() ==> is_digit(#[trigger] d[i])
}

/// The digit portion of an integer token: everything after an optional
/// leading minus sign.
pub open spec fn int_token_digits(t: Seq<char>) -> Seq<char> {
    if t.len() >= 1 && t[0] == '-' {
        t.drop_first()
    } else {
        t
    }
}

/// Whether a token is an integer literal: an optional leading `-`, then
/// one or more digits.
pub open spec fn is_int_token(t: Seq<char>) -> bool {
    int_token_digits(t).len() >= 1 && all_digits(int_token_digits(t))
}

/// The value of a run of decimal digits.
pub open spec fn digits_value(d: Seq<char>) -> int
    decreases d.len(),
{
    if d.len() == 0 {
        0
    } else {
        digits_value(d.drop_last()) * 10 + digit_val(d.last())
    }
}

/// The value of an integer token.
pub open spec fn int_token_value(t: Seq<char>) -> int {
    if t.len() >= 1 && t[0] == '-' {
        -digits_value(t.drop_first())
    } else {
        digits_value(t)
    }
}

/// Whether `v` is representable as a signed machine integer.
pub open spec fn in_isize_range(v: int) -> bool {
    isize::MIN as int <= v && v <= isize::MAX as int
}

/// Whether a token is a complete string literal: it begins with a double
/// quote and the scan of its body ends with a closing quote exactly at
/// the token's last character.
pub open spec fn is_string_token(t: Seq<char>) -> bool {
    t.len() >= 2 && t[0] == '"' && string_body_end(t, 1) == Some(t.len() as int)
}

/// The classification of one raw non-structural token, in priority
/// order: integer (out-of-range digits are a numeric overflow error),
/// string literal (an unterminated one is a lexical error), keyword,
/// the literals `nil`, `true` and `false`, and otherwise a symbol.
pub open spec fn atom_model(t: Seq<char>) -> Result<MalValModel, Seq<char>> {
    if is_int_token(t) {
        if in_isize_range(int_token_value(t)) {
            Ok(MalValModel::Int(int_token_value(t)))
        } else {
            Err("Integer literal out of range."@)
        }
    } else if t.len() >= 1 && t[0] == '"' {
        if is_string_token(t) {
            Ok(MalValModel::String(unescape_model(t.subrange(1, t.len() - 1))))
        } else {
            Err("Unterminated string literal."@)
        }
    } else if t.len() >= 1 && t[0] == ':' {
        Ok(MalValModel::Keyword(t.drop_first()))
    } else if t == "nil"@ {
        Ok(MalValModel::Nil)
    } else if t == "true"@ {
        Ok(MalValModel::Boolean(true))
    } else if t == "false"@ {
        Ok(MalValModel::Boolean(false))
    } else {
        Ok(MalValModel::Atom(t))
    }
}

/// The symbol a quote-family marker desugars to.
pub open spec fn prefix_symbol(t: Seq<char>) -> Seq<char> {
    if t == "'"@ {
        "quote"@
    } else if t == "`"@ {
        "quasiquote"@
    } else if t == "~"@ {
        "unquote"@
    } else if t == "~@"@ {
        "splice-unquote"@
    } else {
        "deref"@
    }
}

/// The kind label of a quote-family marker, used in its error message.
pub open spec fn prefix_kind(t: Seq<char>) -> Seq<char> {
    if t == "'"@ {
        "quoted form"@
    } else if t == "`"@ {
        "quasiquoted form"@
    } else if t == "~"@ {
        "unquoted form"@
    } else if t == "~@"@ {
        "splice-unquoted form"@
    } else {
        "dereferenced form"@
    }
}

/// The three outcomes of reading one form: a value, the explicit
/// "no form" outcome (blank, or comments to the end of the input), or a
/// parse error carrying its description.
pub enum FormOutcome {
    Value(MalValModel),
    NoForm,
    Fail(Seq<char>),
}

/// The result of reading one form from `toks` at position `i` with
/// `depth` enclosing forms, together with the position after it.
///
/// Comments are advanced past. A structural or prefix marker parses its
/// following forms at `depth + 1`; at `MAX_NESTING_DEPTH` the form is
/// rejected instead. A closer with no matching opener fails immediately.
/// Anything else is classified as an atom.
///
/// The returned position is meaningful for the `Value` and `NoForm`
/// outcomes; on `Fail` the partially consumed input is abandoned.
pub open spec fn read_form_model(toks: Seq<Seq<char>>, i: int, depth: int) -> (FormOutcome, int)
    decreases toks.len() - i, 2int,
{
    if i < 0 || i >= toks.len() {
        (FormOutcome::NoForm, toks.len() as int)
    } else if is_comment_token(toks[i]) {
        read_form_model(toks, i + 1, depth)
    } else if depth >= MAX_NESTING_DEPTH {
        (FormOutcome::Fail("Exceeded maximum nesting depth."@), i)
    } else {
        let t = toks[i];
        if t == "("@ {
            match read_seq_model(toks, i + 1, ")"@, depth + 1) {
                Ok((items, j)) => (FormOutcome::Value(MalValModel::List(items)), j),
                Err(m) => (FormOutcome::Fail(m), i),
            }
        } else if t == "["@ {
            match read_seq_model(toks, i + 1, "]"@, depth + 1) {
                Ok((items, j)) => (FormOutcome::Value(MalValModel::Vector(items)), j),
                Err(m) => (FormOutcome::Fail(m), i),
            }
        } else if t == "{"@ {
            match read_seq_model(toks, i + 1, "}"@, depth + 1) {
                Ok((items, j)) => if items.len() % 2 == 0 {
                    (FormOutcome::Value(MalValModel::HashMap(items)), j)
                } else {
                    (FormOutcome::Fail("A hash-map must contain an even number of forms."@), i)
                },
                Err(m) => (FormOutcome::Fail(m), i),
            }
        } else if t == ")"@ {
            (FormOutcome::Fail("Unexpected end of list ')'."@), i)
        } else if t == "]"@ {
            (FormOutcome::Fail("Unexpected end of vector ']'."@), i)
        } else if t == "}"@ {
            (FormOutcome::Fail("Unexpected end of hash-map '}'."@), i)
        } else if t == "'"@ || t == "`"@ || t == "~"@ || t == "~@"@ || t == "@"@ {
            let (o, j) = read_form_model(toks, i + 1, depth + 1);
            match o {
                FormOutcome::Value(v) => (
                    FormOutcome::Value(
                        MalValModel::List(seq![MalValModel::Atom(prefix_symbol(t)), v]),
                    ),
                    j,
                ),
                FormOutcome::NoForm => (FormOutcome::Fail("Invalid "@ + prefix_kind(t) + "."@), j),
                FormOutcome::Fail(m) => (FormOutcome::Fail(m), j),
            }
        } else if t == "^"@ {
            let (o1, j1) = read_form_model(toks, i + 1, depth + 1);
            match o1 {
                FormOutcome::Value(MalValModel::HashMap(meta)) => {
                    let j1c = if i + 1 < j1 <= toks.len() {
                        j1
                    } else if i + 2 <= toks.len() {
                        i + 2
                    } else {
                        toks.len() as int
                    };
                    let (o2, j2) = read_form_model(toks, j1c, depth + 1);
                    match o2 {
                        FormOutcome::Value(f) => (
                            FormOutcome::Value(
                                MalValModel::List(
                                    seq![
                                        MalValModel::Atom("with-meta"@),
                                        f,
                                        MalValModel::HashMap(meta),
                                    ],
                                ),
                            ),
                            j2,
                        ),
                        FormOutcome::NoForm => (
                            FormOutcome::Fail("Can't attach metadata to nothing."@),
                            j2,
                        ),
                        FormOutcome::Fail(m) => (FormOutcome::Fail(m), j2),
                    }
                },
                FormOutcome::Value(_) => (FormOutcome::Fail("Metadata must be a hash-map."@), j1),
                FormOutcome::NoForm => (FormOutcome::Fail("Invalid use of '^'."@), j1),
                FormOutcome::Fail(m) => (FormOutcome::Fail(m), j1),
            }
        } else {
            match atom_model(t) {
                Ok(v) => (FormOutcome::Value(v), i + 1),
                Err(m) => (FormOutcome::Fail(m), i + 1),
            }
        }
    }
}

/// The generic sequence rule: the forms between an already consumed
/// opener and the closing token `close`, read from position `i` on,
/// together with the position after the closer. The end of the input
/// before the closer is an error; a comment contributes nothing; a
/// child's error propagates, abandoning the partial sequence.
pub open spec fn read_seq_model(
    toks: Seq<Seq<char>>,
    i: int,
    close: Seq<char>,
    depth: int,
) -> Result<(Seq<MalValModel>, int), Seq<char>>
    decreases toks.len() - i, 3int,
{
    if i < 0 || i >= toks.len() {
        Err("Expected '"@ + close + "', but got EOF."@)
    } else if toks[i] == close {
        Ok((Seq::empty(), i + 1))
    } else if is_comment_token(toks[i]) {
        read_seq_model(toks, i + 1, close, depth)
    } else {
        let (o, j) = read_form_model(toks, i, depth);
        match o {
            FormOutcome::Value(v) => {
                let jc = if i < j <= toks.len() {
                    j
                } else {
                    i + 1
                };
                match read_seq_model(toks, jc, close, depth) {
                    Ok((rest, k)) => Ok((seq![v] + rest, k)),
                    Err(m) => Err(m),
                }
            },
            FormOutcome::NoForm => Err("Expected '"@ + close + "', but got EOF."@),
            FormOutcome::Fail(m) => Err(m),
        }
    }
}

/// The outcome of reading one form from the whole of a text.
pub open spec fn read_str_model(s: Seq<char>) -> FormOutcome {
    read_form_model(tokenize_model(s), 0, 0).0
}

/// How an executable read result corresponds to a modelled outcome.
pub open spec fn outcome_matches(r: Result<Option<MalVal>, String>, o: FormOutcome) -> bool {
    match o {
        FormOutcome::Value(v) => r matches Ok(Some(m)) && m@ == v,
        FormOutcome::NoForm => r matches Ok(None),
        FormOutcome::Fail(msg) => r matches Err(s) && s@ == msg,
    }
}

/// Whether `c` is a separator.
fn is_separator(c: char) -> (r: bool)
    ensures
        r == is_sep(c),
{
    c == ' ' || c == '\t' || c == '\n' || c == '\r' || c == '\u{b}' || c == '\u{c}' || c == ','
}

/// Whether `c` is a single-character structural or prefix marker.
fn is_special_char(c: char) -> (r: bool)
    ensures
        r == is_special(c),
{
    c == '[' || c == ']' || c == '{' || c == '}' || c == '(' || c == ')' || c == '\'' || c == '`'
        || c == '~' || c == '^' || c == '@'
}

/// Whether `c` may stand inside a plain token.
fn is_symbol_constituent(c: char) -> (r: bool)
    ensures
        r == is_symbol_char(c),
{
    !(is_separator(c) || c == '[' || c == ']' || c == '{' || c == '}' || c == '(' || c == ')'
        || c == '\'' || c == '"' || c == '`' || c == ';')
}

/// The end of the token starting at the non-separator position `i`.
fn scan_token(cs: &Vec<char>, i: usize) -> (e: usize)
    requires
        i < cs@.len(),
        !is_sep(cs@[i as int]),
    ensures
        i < e <= cs@.len(),
        e as int == token_end(cs@, i as int),
{
    let n = cs.len();
    let c = cs[i];
    if c == '~' && i + 1 < n && cs[i + 1] == '@' {
        i + 2
    } else if is_special_char(c) {
        i + 1
    } else if c == '"' {
        let mut k = i + 1;
        while k < n
            invariant
                i < k <= n,
                n == cs@.len(),
                cs@[i as int] == '"',
                string_body_end(cs@, i + 1) == string_body_end(cs@, k as int),
            decreases n - k,
        {
            if cs[k] == '"' {
                proof {
                    assert(string_body_end(cs@, k as int) == Some(k + 1 as int));
                }
                return k + 1;
            }
            if cs[k] == '\\' {
                if k + 1 < n {
                    k = k + 2;
                } else {
                    proof {
                        assert(string_body_end(cs@, k as int) is None);
                    }
                    return n;
                }
            } else {
                k = k + 1;
            }
        }
        n
    } else if c == ';' {
        let mut k = i + 1;
        while k < n && cs[k] != '\n'
            invariant
                i < k <= n,
                n == cs@.len(),
                line_comment_end(cs@, i + 1) == line_comment_end(cs@, k as int),
            decreases n - k,
        {
            k = k + 1;
        }
        k
    } else {
        let mut k = i;
        while k < n && is_symbol_constituent(cs[k])
            invariant
                i <= k <= n,
                n == cs@.len(),
                symbol_run_end(cs@, i as int) == symbol_run_end(cs@, k as int),
            decreases n - k,
        {
            k = k + 1;
        }
        proof {
            assert(is_symbol_char(cs@[i as int]));
        }
        k
    }
}

/// The flat ordered token sequence of `input`: one scanning pattern
/// applied repeatedly, discarding separators, until the end of the text.
pub fn tokenize(input: String) -> (r: Vec<String>)
    ensures
        r.deep_view() == tokenize_model(input@),
{
    let cs = to_char_vec(input.as_str());
    let n = cs.len();
    let mut results: Vec<String> = Vec::new();
    let mut i: usize = 0;
    while i < n
        invariant
            cs@ == input@,
            n == cs@.len(),
            i <= n,
            results.deep_view() + tokens_from(cs@, i as int) == tokens_from(cs@, 0),
        decreases n - i,
    {
        let c = cs[i];
        if is_separator(c) {
            proof {
                assert(tokens_from(cs@, i as int) == tokens_from(cs@, i + 1));
            }
            i = i + 1;
        } else {
            let e = scan_token(&cs, i);
            let tok = chars_to_string(&cs, i, e);
            let ghost old_dv = results.deep_view();
            results.push(tok);
            proof {
                assert(results.deep_view() =~~= old_dv.push(tok@));
                assert(tokens_from(cs@, i as int) == seq![cs@.subrange(i as int, e as int)]
                    + tokens_from(cs@, e as int));
                assert(results.deep_view() + tokens_from(cs@, e as int) =~~= tokens_from(cs@, 0));
            }
            i = e;
        }
    }
    proof {
        assert(results.deep_view() =~~= tokens_from(cs@, 0));
    }
    results
}

/// The value of a run of digits is never negative.
proof fn lemma_digits_value_nonneg(d: Seq<char>)
    requires
        all_digits(d),
    ensures
        digits_value(d) >= 0,
    decreases d.len(),
{
    if d.len() > 0 {
        assert forall|i: int| 0 <= i < d.drop_last().len() implies is_digit(
            #[trigger] d.drop_last()[i],
        ) by {
            assert(d.drop_last()[i] == d[i]);
        }
        lemma_digits_value_nonneg(d.drop_last());
    }
}

/// Extending a run of digits never shrinks its value.
proof fn lemma_digits_value_prefix(d: Seq<char>, k: int)
    requires
        all_digits(d),
        0 <= k <= d.len(),
    ensures
        digits_value(d.subrange(0, k)) <= digits_value(d),
    decreases d.len() - k,
{
    if k == d.len() {
        assert(d.subrange(0, k) =~= d);
    } else {
        lemma_digits_value_prefix(d, k + 1);
        let p = d.subrange(0, k + 1);
        assert(p.drop_last() =~= d.subrange(0, k));
        assert(p.last() == d[k]);
        assert forall|i: int| 0 <= i < d.subrange(0, k).len() implies is_digit(
            #[trigger] d.subrange(0, k)[i],
        ) by {
            assert(d.subrange(0, k)[i] == d[i]);
        }
        lemma_digits_value_nonneg(d.subrange(0, k));
    }
}

/// Whether `c` is a decimal digit.
fn is_digit_char(c: char) -> (r: bool)
    ensures
        r == is_digit(c),
{
    c == '0' || c == '1' || c == '2' || c == '3' || c == '4' || c == '5' || c == '6' || c == '7'
        || c == '8' || c == '9'
}

/// The value of one decimal digit character.
fn digit_value(c: char) -> (v: i128)
    requires
        is_digit(c),
    ensures
        v == digit_val(c),
{
    if c == '0' {
        0
    } else if c == '1' {
        1
    } else if c == '2' {
        2
    } else if c == '3' {
        3
    } else if c == '4' {
        4
    } else if c == '5' {
        5
    } else if c == '6' {
        6
    } else if c == '7' {
        7
    } else if c == '8' {
        8
    } else {
        9
    }
}

/// Whether `s` is an integer literal: an optional leading `-`, then one
/// or more digits.
fn is_int_literal(s: &str) -> (r: bool)
    ensures
        r == is_int_token(s@),
{
    let n = s.unicode_len();
    let has_minus = n >= 1 && s.get_char(0) == '-';
    let start: usize = if has_minus {
        1
    } else {
        0
    };
    let ghost d = int_token_digits(s@);
    proof {
        if has_minus {
            assert(d =~= s@.skip(1));
        } else {
            assert(d =~= s@);
        }
    }
    if n == start {
        return false;
    }
    let mut i: usize = start;
    while i < n
        invariant
            start <= i <= n,
            n == s@.len(),
            start <= 1,
            d == int_token_digits(s@),
            d.len() == n - start,
            forall|k: int| 0 <= k < d.len() ==> d[k] == s@[k + start],
            forall|k: int| 0 <= k < i - start ==> is_digit(#[trigger] d[k]),
        decreases n - i,
    {
        if !is_digit_char(s.get_char(i)) {
            proof {
                assert(d[i - start] == s@[i as int]);
            }
            return false;
        }
        i = i + 1;
    }
    proof {
        assert(all_digits(d));
    }
    true
}

/// The signed value of an integer token, or a numeric-overflow error
/// when its digits fall outside the representable range.
fn parse_int_token(s: &str) -> (r: Result<isize, String>)
    requires
        is_int_token(s@),
    ensures
        match r {
            Ok(n) => in_isize_range(int_token_value(s@)) && n as int == int_token_value(s@),
            Err(m) => !in_isize_range(int_token_value(s@)) && m@
                == "Integer literal out of range."@,
        },
{
    proof {
        assert(s@.len() >= 1);
    }
    let n = s.unicode_len();
    let neg = s.get_char(0) == '-';
    let start: usize = if neg {
        1
    } else {
        0
    };
    let ghost d = int_token_digits(s@);
    proof {
        if neg {
            assert(d =~= s@.skip(1));
        } else {
            assert(d =~= s@);
        }
    }
    let mut v: i128 = 0;
    let mut i: usize = start;
    while i < n
        invariant
            start <= i <= n,
            n == s@.len(),
            start <= 1,
            neg == (s@[0] == '-'),
            d == int_token_digits(s@),
            d.len() == n - start,
            all_digits(d),
            forall|k: int| 0 <= k < d.len() ==> d[k] == s@[k + start],
            v == -digits_value(d.subrange(0, i - start)),
            -10_000_000_000_000_000_000int <= v <= 0,
        decreases n - i,
    {
        proof {
            assert(d[i - start] == s@[i as int]);
            assert(is_digit(d[i - start]));
        }
        let dig = digit_value(s.get_char(i));
        let v2 = v * 10 - dig;
        proof {
            assert(d.subrange(0, i - start + 1).drop_last() =~= d.subrange(0, i - start));
            assert(d.subrange(0, i - start + 1).last() == d[i - start]);
            assert(d[i - start] == s@[i as int]);
            assert(digits_value(d.subrange(0, i - start + 1)) == digits_value(
                d.subrange(0, i - start),
            ) * 10 + digit_val(s@[i as int]));
        }
        if v2 < -10_000_000_000_000_000_000 {
            proof {
                lemma_digits_value_prefix(d, i - start + 1);
                assert(digits_value(d) > 10_000_000_000_000_000_000int);
                assert((isize::MAX as int) < 10_000_000_000_000_000_000int);
                assert((isize::MIN as int) > -10_000_000_000_000_000_000int);
            }
            return Err(String::from_str("Integer literal out of range."));
        }
        v = v2;
        i = i + 1;
    }
    proof {
        assert(d.subrange(0, n - start) =~= d);
        assert(v == -digits_value(d));
    }
    if neg {
        if v >= isize::MIN as i128 {
            Ok(v as isize)
        } else {
            Err(String::from_str("Integer literal out of range."))
        }
    } else {
        let pos = -v;
        if pos <= isize::MAX as i128 {
            proof {
                lemma_digits_value_nonneg(d);
            }
            Ok(pos as isize)
        } else {
            proof {
                lemma_digits_value_nonneg(d);
            }
            Err(String::from_str("Integer literal out of range."))
        }
    }
}

/// Whether a token that begins with a double quote is a complete string
/// literal, its body closed by an unescaped quote at the very end.
fn string_token_complete(s: &str) -> (r: bool)
    requires
        s@.len() >= 1,
        s@[0] == '"',
    ensures
        r == is_string_token(s@),
{
    let cs = to_char_vec(s);
    let n = cs.len();
    let mut k: usize = 1;
    while k < n
        invariant
            1 <= k <= n,
            n == cs@.len(),
            cs@ == s@,
            s@[0] == '"',
            string_body_end(s@, 1) == string_body_end(s@, k as int),
        decreases n - k,
    {
        if cs[k] == '"' {
            proof {
                assert(string_body_end(s@, k as int) == Some(k + 1 as int));
            }
            return k + 1 == n;
        }
        if cs[k] == '\\' {
            if k + 1 < n {
                k = k + 2;
            } else {
                proof {
                    assert(string_body_end(s@, k as int) is None);
                }
                return false;
            }
        } else {
            k = k + 1;
        }
    }
    proof {
        assert(string_body_end(s@, k as int) is None);
    }
    false
}

/// Whether `s` is a line comment token.
fn is_comment_str(s: &str) -> (r: bool)
    ensures
        r == is_comment_token(s@),
{
    s.unicode_len() >= 1 && s.get_char(0) == ';'
}

/// The stateful parse cursor: the token sequence and a forward-only
/// position, owned by one in-flight parse call.
struct Reader {
    tokens: Vec<String>,
    position: usize,
}

impl Reader {
    /// The token sequence as character sequences.
    spec fn toks(&self) -> Seq<Seq<char>> {
        self.tokens.deep_view()
    }

    /// The cursor never runs past the end of the token sequence.
    spec fn wf(&self) -> bool {
        self.position <= self.tokens@.len()
    }

    /// The current token, advancing the cursor; `None` at the end.
    fn next(&mut self) -> (r: Option<String>)
        requires
            old(self).wf(),
        ensures
            final(self).tokens == old(self).tokens,
            final(self).wf(),
            match r {
                Some(t) => old(self).position < old(self).tokens@.len() && t@ == old(self).toks()[old(self).position as int] && final(self).position == old(self).position
                    + 1,
                None => old(self).position == old(self).tokens@.len() && final(self).position
                    == old(self).position,
            },
    {
        if self.position < self.tokens.len() {
            let token = self.tokens[self.position].clone();
            self.position = self.position + 1;
            Some(token)
        } else {
            None
        }
    }

    /// The current token without advancing; `None` at the end.
    fn peek(&self) -> (r: Option<String>)
        requires
            self.wf(),
        ensures
            match r {
                Some(t) => self.position < self.tokens@.len() && t@ == self.toks()[self.position as int],
                None => self.position == self.tokens@.len(),
            },
    {
        if self.position < self.tokens.len() {
            Some(self.tokens[self.position].clone())
        } else {
            None
        }
    }
}

/// One raw non-structural token classified into a scalar value, in
/// priority order: integer, string, keyword, `nil`, `true`, `false`,
/// and otherwise a symbol, verbatim.
fn read_atom(reader: &mut Reader) -> (r: Result<MalVal, String>)
    requires
        old(reader).wf(),
        old(reader).position < old(reader).tokens@.len(),
    ensures
        final(reader).wf(),
        final(reader).tokens == old(reader).tokens,
        final(reader).position == old(reader).position + 1,
        ({
            match atom_model(old(reader).toks()[old(reader).position as int]) {
                Ok(v) => r matches Ok(m) && m@ == v,
                Err(msg) => r matches Err(s) && s@ == msg,
            }
        }),
{
    let token = reader.next().unwrap();
    let ghost t = token@;
    if is_int_literal(token.as_str()) {
        match parse_int_token(token.as_str()) {
            Ok(n) => Ok(MalVal::Int(n)),
            Err(m) => Err(m),
        }
    } else {
        let n = token.as_str().unicode_len();
        if n >= 1 && token.as_str().get_char(0) == '"' {
            if string_token_complete(token.as_str()) {
                let inner = token.as_str().substring_char(1, n - 1);
                proof {
                    assert(inner@ =~= t.subrange(1, t.len() - 1));
                }
                Ok(MalVal::String(unescape(inner)))
            } else {
                Err(String::from_str("Unterminated string literal."))
            }
        } else if n >= 1 && token.as_str().get_char(0) == ':' {
            let kw = token.as_str().substring_char(1, n);
            proof {
                assert(kw@ =~= t.drop_first());
            }
            Ok(MalVal::Keyword(kw.to_owned()))
        } else if str_eq(token.as_str(), "nil") {
            Ok(MalVal::Nil)
        } else if str_eq(token.as_str(), "true") {
            Ok(MalVal::Boolean(true))
        } else if str_eq(token.as_str(), "false") {
            Ok(MalVal::Boolean(false))
        } else {
            Ok(MalVal::Atom(token))
        }
    }
}

/// The generic sequence rule: consumes the opener the caller peeked,
/// then reads forms until the closing token `end_token`, which is
/// consumed. The end of the input before the closer is an error; a
/// comment contributes nothing; a child's error propagates, abandoning
/// the partial sequence.
#[verifier::loop_isolation(false)]
fn read_seq(reader: &mut Reader, start_token: &str, end_token: &str, depth: usize) -> (r: Result<
    Vec<MalVal>,
    String,
>)
    requires
        old(reader).wf(),
        old(reader).position < old(reader).tokens@.len(),
        old(reader).toks()[old(reader).position as int] == start_token@,
        depth <= MAX_NESTING_DEPTH,
    ensures
        final(reader).wf(),
        final(reader).tokens == old(reader).tokens,
        final(reader).position > old(reader).position,
        ({
            match read_seq_model(
                old(reader).toks(),
                old(reader).position + 1,
                end_token@,
                depth as int,
            ) {
                Ok(p) => r matches Ok(v) && model_children(v@) == p.0 && final(reader).position
                    == p.1,
                Err(msg) => r matches Err(s) && s@ == msg,
            }
        }),
    decreases old(reader).tokens@.len() - old(reader).position, 0int,
{
    let ghost toks = old(reader).toks();
    let ghost pos0 = old(reader).position as int;
    let _ = reader.next();
    let mut seq: Vec<MalVal> = Vec::new();
    proof {
        assert(model_children(seq@) =~= Seq::<MalValModel>::empty());
    }
    loop
        invariant
            reader.wf(),
            reader.toks() == toks,
            reader.tokens == old(reader).tokens,
            toks.len() == reader.tokens@.len(),
            pos0 < reader.position <= toks.len(),
            depth <= MAX_NESTING_DEPTH,
            ({
                let entry = read_seq_model(toks, pos0 + 1, end_token@, depth as int);
                match read_seq_model(toks, reader.position as int, end_token@, depth as int) {
                    Ok(p) => entry matches Ok(q) && q.0 == model_children(seq@) + p.0 && q.1
                        == p.1,
                    Err(m) => entry matches Err(m2) && m2 == m,
                }
            }),
        decreases toks.len() - reader.position,
    {
        let opt = reader.peek();
        match opt {
            None => {
                return Err(
                    String::from_str("Expected '").concat(end_token).concat("', but got EOF."),
                );
            },
            Some(t) => {
                if str_eq(t.as_str(), end_token) {
                    let _ = reader.next();
                    proof {
                        assert(model_children(seq@) + Seq::<MalValModel>::empty()
                            =~= model_children(seq@));
                    }
                    return Ok(seq);
                }
                if is_comment_str(t.as_str()) {
                    let _ = reader.next();
                } else {
                    let ghost p_before = reader.position as int;
                    match read_form(reader, depth) {
                        Ok(Some(form)) => {
                            let ghost old_seq = seq@;
                            seq.push(form);
                            proof {
                                lemma_model_children_push(old_seq, form);
                                match read_seq_model(
                                    toks,
                                    reader.position as int,
                                    end_token@,
                                    depth as int,
                                ) {
                                    Ok(p) => {
                                        assert(model_children(seq@) + p.0 =~= model_children(
                                            old_seq,
                                        ) + (seq![form@] + p.0));
                                    },
                                    Err(m) => {},
                                }
                            }
                        },
                        Ok(None) => {
                            proof {
                                assert(false);
                            }
                        },
                        Err(msg) => {
                            return Err(msg);
                        },
                    }
                }
            },
        }
    }
}

/// A list: the sequence rule with `(` and `)`.
fn read_list(reader: &mut Reader, depth: usize) -> (r: Result<MalVal, String>)
    requires
        old(reader).wf(),
        old(reader).position < old(reader).tokens@.len(),
        old(reader).toks()[old(reader).position as int] == "("@,
        depth <= MAX_NESTING_DEPTH,
    ensures
        final(reader).wf(),
        final(reader).tokens == old(reader).tokens,
        final(reader).position > old(reader).position,
        ({
            match read_seq_model(old(reader).toks(), old(reader).position + 1, ")"@, depth as int) {
                Ok(p) => r matches Ok(m) && m@ == MalValModel::List(p.0) && final(reader).position
                    == p.1,
                Err(msg) => r matches Err(s) && s@ == msg,
            }
        }),
    decreases old(reader).tokens@.len() - old(reader).position, 1int,
{
    match read_seq(reader, "(", ")", depth) {
        Ok(list) => Ok(MalVal::List(list)),
        Err(m) => Err(m),
    }
}

/// A vector: the sequence rule with `[` and `]`.
fn read_vector(reader: &mut Reader, depth: usize) -> (r: Result<MalVal, String>)
    requires
        old(reader).wf(),
        old(reader).position < old(reader).tokens@.len(),
        old(reader).toks()[old(reader).position as int] == "["@,
        depth <= MAX_NESTING_DEPTH,
    ensures
        final(reader).wf(),
        final(reader).tokens == old(reader).tokens,
        final(reader).position > old(reader).position,
        ({
            match read_seq_model(old(reader).toks(), old(reader).position + 1, "]"@, depth as int) {
                Ok(p) => r matches Ok(m) && m@ == MalValModel::Vector(p.0) && final(reader).position == p.1,
                Err(msg) => r matches Err(s) && s@ == msg,
            }
        }),
    decreases old(reader).tokens@.len() - old(reader).position, 1int,
{
    match read_seq(reader, "[", "]", depth) {
        Ok(vec) => Ok(MalVal::Vector(vec)),
        Err(m) => Err(m),
    }
}

/// A hash-map: the sequence rule with `{` and `}`, then the element
/// count must be even. The forms are kept in insertion order,
/// alternating key and value.
fn read_hashmap(reader: &mut Reader, depth: usize) -> (r: Result<MalVal, String>)
    requires
        old(reader).wf(),
        old(reader).position < old(reader).tokens@.len(),
        old(reader).toks()[old(reader).position as int] == "{"@,
        depth <= MAX_NESTING_DEPTH,
    ensures
        final(reader).wf(),
        final(reader).tokens == old(reader).tokens,
        final(reader).position > old(reader).position,
        ({
            match read_seq_model(old(reader).toks(), old(reader).position + 1, "}"@, depth as int) {
                Ok(p) => if p.0.len() % 2 == 0 {
                    r matches Ok(m) && m@ == MalValModel::HashMap(p.0) && final(reader).position
                        == p.1
                } else {
                    r matches Err(s) && s@ == "A hash-map must contain an even number of forms."@
                },
                Err(msg) => r matches Err(s) && s@ == msg,
            }
        }),
    decreases old(reader).tokens@.len() - old(reader).position, 1int,
{
    match read_seq(reader, "{", "}", depth) {
        Err(msg) => Err(msg),
        Ok(contents) => {
            proof {
                lemma_model_children(contents@);
            }
            if contents.len() % 2 == 0 {
                Ok(MalVal::HashMap(contents))
            } else {
                Err(String::from_str("A hash-map must contain an even number of forms."))
            }
        },
    }
}

/// A quote-family form: consumes the marker, reads exactly one following
/// form, and wraps it as the two-element list `(symbol_name form)`. A
/// missing form is a malformed-structure error naming `kind_name`.
fn read_prefixed_form(reader: &mut Reader, kind_name: &str, symbol_name: &str, depth: usize) -> (r:
    Result<MalVal, String>)
    requires
        old(reader).wf(),
        old(reader).position < old(reader).tokens@.len(),
        depth <= MAX_NESTING_DEPTH,
    ensures
        final(reader).wf(),
        final(reader).tokens == old(reader).tokens,
        final(reader).position >= old(reader).position,
        ({
            let (o, j) = read_form_model(
                old(reader).toks(),
                old(reader).position + 1,
                depth as int,
            );
            match o {
                FormOutcome::Value(v) => r matches Ok(m) && m@ == MalValModel::List(
                    seq![MalValModel::Atom(symbol_name@), v],
                ) && final(reader).position == j && final(reader).position > old(reader).position,
                FormOutcome::NoForm => r matches Err(s) && s@ == "Invalid "@ + kind_name@ + "."@,
                FormOutcome::Fail(msg) => r matches Err(s) && s@ == msg,
            }
        }),
    decreases old(reader).tokens@.len() - old(reader).position, 1int,
{
    let _ = reader.next();
    match read_form(reader, depth) {
        Ok(Some(form)) => {
            let mut items: Vec<MalVal> = Vec::new();
            items.push(MalVal::Atom(symbol_name.to_owned()));
            items.push(form);
            proof {
                lemma_model_children(items@);
                assert(model_children(items@) =~= seq![
                    MalValModel::Atom(symbol_name@),
                    form@,
                ]);
            }
            Ok(MalVal::List(items))
        },
        Ok(None) => Err(String::from_str("Invalid ").concat(kind_name).concat(".")),
        Err(m) => Err(m),
    }
}

/// A metadata form: consumes `^`, reads two forms in order; the first
/// must be a hash-map, and the result is the three-element list
/// `(with-meta form metadata)`.
fn read_form_with_metadata(reader: &mut Reader, depth: usize) -> (r: Result<MalVal, String>)
    requires
        old(reader).wf(),
        old(reader).position < old(reader).tokens@.len(),
        depth <= MAX_NESTING_DEPTH,
    ensures
        final(reader).wf(),
        final(reader).tokens == old(reader).tokens,
        final(reader).position >= old(reader).position,
        ({
            let toks = old(reader).toks();
            let i = old(reader).position as int;
            let (o1, j1) = read_form_model(toks, i + 1, depth as int);
            match o1 {
                FormOutcome::Value(MalValModel::HashMap(meta)) => {
                    let j1c = if i + 1 < j1 <= toks.len() {
                        j1
                    } else if i + 2 <= toks.len() {
                        i + 2
                    } else {
                        toks.len() as int
                    };
                    let (o2, j2) = read_form_model(toks, j1c, depth as int);
                    match o2 {
                        FormOutcome::Value(f) => r matches Ok(m) && m@ == MalValModel::List(
                            seq![
                                MalValModel::Atom("with-meta"@),
                                f,
                                MalValModel::HashMap(meta),
                            ],
                        ) && final(reader).position == j2 && final(reader).position > old(reader).position,
                        FormOutcome::NoForm => r matches Err(s) && s@
                            == "Can't attach metadata to nothing."@,
                        FormOutcome::Fail(m2) => r matches Err(s) && s@ == m2,
                    }
                },
                FormOutcome::Value(_) => r matches Err(s) && s@ == "Metadata must be a hash-map."@,
                FormOutcome::NoForm => r matches Err(s) && s@ == "Invalid use of '^'."@,
                FormOutcome::Fail(m) => r matches Err(s) && s@ == m,
            }
        }),
    decreases old(reader).tokens@.len() - old(reader).position, 1int,
{
    let _ = reader.next();
    match read_form(reader, depth) {
        Ok(Some(MalVal::HashMap(metadata))) => {
            match read_form(reader, depth) {
                Ok(Some(form)) => {
                    let with_meta = MalVal::Atom(String::from_str("with-meta"));
                    let mut items: Vec<MalVal> = Vec::new();
                    items.push(with_meta);
                    items.push(form);
                    items.push(MalVal::HashMap(metadata));
                    proof {
                        lemma_model_children(items@);
                        assert(model_children(items@) =~= seq![
                            MalValModel::Atom("with-meta"@),
                            form@,
                            items@[2]@,
                        ]);
                    }
                    Ok(MalVal::List(items))
                },
                Ok(None) => Err(String::from_str("Can't attach metadata to nothing.")),
                Err(msg) => Err(msg),
            }
        },
        Ok(Some(_)) => Err(String::from_str("Metadata must be a hash-map.")),
        Ok(None) => Err(String::from_str("Invalid use of '^'.")),
        Err(msg) => Err(msg),
    }
}

/// Reads the form starting at the already peeked `token`: dispatches to
/// the matching bracket family, closer error, quote-family sugar,
/// metadata rule, or atom classification.
fn read_form_starting_at(token: String, reader: &mut Reader, depth: usize) -> (r: Result<
    Option<MalVal>,
    String,
>)
    requires
        old(reader).wf(),
        old(reader).position < old(reader).tokens@.len(),
        old(reader).toks()[old(reader).position as int] == token@,
        !is_comment_token(token@),
        depth < MAX_NESTING_DEPTH,
    ensures
        final(reader).wf(),
        final(reader).tokens == old(reader).tokens,
        final(reader).position >= old(reader).position,
        ({
            let (o, j) = read_form_model(
                old(reader).toks(),
                old(reader).position as int,
                depth as int,
            );
            &&& outcome_matches(r, o)
            &&& (o is Value ==> final(reader).position == j && final(reader).position > old(reader).position)
        }),
    decreases old(reader).tokens@.len() - old(reader).position, 2int,
{
    let form: Result<MalVal, String> = if str_eq(token.as_str(), "(") {
        read_list(reader, depth + 1)
    } else if str_eq(token.as_str(), "[") {
        read_vector(reader, depth + 1)
    } else if str_eq(token.as_str(), "{") {
        read_hashmap(reader, depth + 1)
    } else if str_eq(token.as_str(), ")") {
        Err(String::from_str("Unexpected end of list ')'."))
    } else if str_eq(token.as_str(), "]") {
        Err(String::from_str("Unexpected end of vector ']'."))
    } else if str_eq(token.as_str(), "}") {
        Err(String::from_str("Unexpected end of hash-map '}'."))
    } else if str_eq(token.as_str(), "'") {
        read_prefixed_form(reader, "quoted form", "quote", depth + 1)
    } else if str_eq(token.as_str(), "`") {
        read_prefixed_form(reader, "quasiquoted form", "quasiquote", depth + 1)
    } else if str_eq(token.as_str(), "~") {
        read_prefixed_form(reader, "unquoted form", "unquote", depth + 1)
    } else if str_eq(token.as_str(), "~@") {
        read_prefixed_form(reader, "splice-unquoted form", "splice-unquote", depth + 1)
    } else if str_eq(token.as_str(), "@") {
        read_prefixed_form(reader, "dereferenced form", "deref", depth + 1)
    } else if str_eq(token.as_str(), "^") {
        read_form_with_metadata(reader, depth + 1)
    } else {
        read_atom(reader)
    };
    match form {
        Ok(value) => Ok(Some(value)),
        Err(msg) => Err(msg),
    }
}

/// Reads one form: no token left is the explicit "no form" outcome,
/// comments are advanced past, and anything else is dispatched on its
/// leading token. Forms nested past `MAX_NESTING_DEPTH` are rejected.
fn read_form(reader: &mut Reader, depth: usize) -> (r: Result<Option<MalVal>, String>)
    requires
        old(reader).wf(),
        depth <= MAX_NESTING_DEPTH,
    ensures
        final(reader).wf(),
        final(reader).tokens == old(reader).tokens,
        final(reader).position >= old(reader).position,
        ({
            let (o, j) = read_form_model(
                old(reader).toks(),
                old(reader).position as int,
                depth as int,
            );
            &&& outcome_matches(r, o)
            &&& ((o is Value || o is NoForm) ==> final(reader).position == j)
            &&& (o is Value ==> final(reader).position > old(reader).position)
        }),
    decreases old(reader).tokens@.len() - old(reader).position, 3int,
{
    let opt = reader.peek();
    match opt {
        None => Ok(None),
        Some(token) => {
            if is_comment_str(token.as_str()) {
                let _ = reader.next();
                read_form(reader, depth)
            } else if depth >= MAX_NESTING_DEPTH {
                Err(String::from_str("Exceeded maximum nesting depth."))
            } else {
                read_form_starting_at(token, reader, depth)
            }
        },
    }
}

/// The public entry point: reads one form from the whole of `input`.
/// Every input maps to exactly one of three outcomes: a value, the
/// explicit "no form" outcome for blank or comment-only input, or a
/// parse error with its description.
pub fn read_str(input: String) -> (r: Result<Option<MalVal>, String>)
    ensures
        outcome_matches(r, read_str_model(input@)),
{
    let tokens = tokenize(input);
    let mut reader = Reader { tokens, position: 0 };
    read_form(&mut reader, 0)
}

} // verus!
