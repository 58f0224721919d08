//! The printer: a recursive, side-effect-free renderer from a value to its
//! canonical text. It is the structural inverse of the reader for every
//! variant except the debug-only `Error` sentinel.

use vstd::prelude::*;
use vstd::string::StringExecFns;
use crate::types::{MalVal, MalValModel, model_children, lemma_model_children};
use crate::util::{escape, escape_model};
use crate::text::push_char;

verus! {

/// The decimal digit character for `d`.
pub open spec fn digit_char(d: int) -> char {
    if d == 0 {
        '0'
    } else if d == 1 {
        '1'
    } else if d == 2 {
        '2'
    } else if d == 3 {
        '3'
    } else if d == 4 {
        '4'
    } else if d == 5 {
        '5'
    } else if d == 6 {
        '6'
    } else if d == 7 {
        '7'
    } else if d == 8 {
        '8'
    } else {
        '9'
    }
}

/// The decimal digits of a non-negative integer, most significant first,
/// with no leading zeros (a single `'0'` for zero).
pub open spec fn dec_digits(n: int) -> Seq<char>
    decreases n,
{
    if n < 10 {
        seq![digit_char(n)]
    } else {
        dec_digits(n / 10).push(digit_char(n % 10))
    }
}

/// The canonical text of a signed integer.
pub open spec fn int_model(n: int) -> Seq<char> {
    if n < 0 {
        "-"@ + dec_digits(-n)
    } else {
        dec_digits(n)
    }
}

/// The elements rendered individually and joined with single spaces.
pub open spec fn render_items(items: Seq<MalValModel>) -> Seq<char>
    decreases items,
{
    if items.len() == 0 {
        Seq::empty()
    } else if items.len() == 1 {
        render_model(items[0])
    } else {
        render_model(items[0]) + " "@ + render_items(items.drop_first())
    }
}

/// The canonical text of a value.
pub open spec fn render_model(v: MalValModel) -> Seq<char>
    decreases v,
{
    match v {
        MalValModel::Atom(s) => s,
        MalValModel::Boolean(b) => if b {
            "true"@
        } else {
            "false"@
        },
        MalValModel::Error(s) => "ERROR: "@ + s,
        MalValModel::HashMap(items) => "{"@ + render_items(items) + "}"@,
        MalValModel::Int(n) => int_model(n),
        MalValModel::Keyword(s) => ":"@ + s,
        MalValModel::List(items) => "("@ + render_items(items) + ")"@,
        MalValModel::Nil => "nil"@,
        MalValModel::String(s) => "\""@ + escape_model(s) + "\""@,
        MalValModel::Vector(items) => "["@ + render_items(items) + "]"@,
    }
}

/// `render_items` over a sequence grown by one element at the end.
pub proof fn lemma_render_items_push(items: Seq<MalValModel>, v: MalValModel)
    ensures
        render_items(items.push(v)) == if items.len() == 0 {
            render_model(v)
        } else {
            render_items(items) + " "@ + render_model(v)
        },
    decreases items.len(),
{
    if items.len() == 0 {
        assert(items.push(v)[0] == v);
        assert(render_items(items.push(v)) == render_model(v));
    } else {
        lemma_render_items_push(items.drop_first(), v);
        assert(items.push(v).drop_first() =~= items.drop_first().push(v));
        assert(items.push(v)[0] == items[0]);
        if items.len() == 1 {
            assert(render_items(items.push(v)) == render_model(items[0]) + " "@ + render_model(v));
            assert(render_items(items) == render_model(items[0]));
        } else {
            assert(render_items(items.push(v)) == render_model(items[0]) + " "@ + (render_items(
                items.drop_first(),
            ) + " "@ + render_model(v)));
            assert(render_model(items[0]) + " "@ + (render_items(items.drop_first()) + " "@
                + render_model(v)) =~= (render_model(items[0]) + " "@ + render_items(
                items.drop_first(),
            )) + " "@ + render_model(v));
        }
    }
}

/// Appends the digits of `m` to `out`.
fn push_dec_digits(out: &mut String, m: i128)
    requires
        0 <= m,
    ensures
        final(out)@ == old(out)@ + dec_digits(m as int),
    decreases m,
{
    if m < 10 {
        push_char(out, digit_to_char(m));
        assert(out@ =~= old(out)@ + dec_digits(m as int));
    } else {
        push_dec_digits(out, m / 10);
        push_char(out, digit_to_char(m % 10));
        assert(out@ =~= old(out)@ + dec_digits(m as int));
    }
}

/// The character for one decimal digit.
fn digit_to_char(d: i128) -> (c: char)
    requires
        0 <= d <= 9,
    ensures
        c == digit_char(d as int),
{
    if d == 0 {
        '0'
    } else if d == 1 {
        '1'
    } else if d == 2 {
        '2'
    } else if d == 3 {
        '3'
    } else if d == 4 {
        '4'
    } else if d == 5 {
        '5'
    } else if d == 6 {
        '6'
    } else if d == 7 {
        '7'
    } else if d == 8 {
        '8'
    } else {
        '9'
    }
}

/// The canonical text of `n`.
fn int_to_string(n: isize) -> (r: String)
    ensures
        r@ == int_model(n as int),
{
    if n < 0 {
        let mut r = String::from_str("-");
        push_dec_digits(&mut r, -(n as i128));
        r
    } else {
        let mut r = String::new();
        push_dec_digits(&mut r, n as i128);
        assert(r@ =~= dec_digits(n as int));
        r
    }
}

/// The elements of `seq` rendered individually, space-joined, wrapped in
/// the two delimiters.
fn seq_to_str(seq: &Vec<MalVal>, start_token: &str, end_token: &str) -> (r: String)
    ensures
        r@ == start_token@ + render_items(model_children(seq@)) + end_token@,
    decreases seq, 0int,
{
    proof {
        lemma_model_children(seq@);
    }
    let ghost models = model_children(seq@);
    let mut r = String::from_str(start_token);
    let mut i: usize = 0;
    while i < seq.len()
        invariant
            models == model_children(seq@),
            models.len() == seq@.len(),
            forall|k: int| 0 <= k < seq@.len() ==> models[k] == seq@[k]@,
            i <= seq@.len(),
            r@ == start_token@ + render_items(models.subrange(0, i as int)),
        decreases seq@.len() - i,
    {
        if i > 0 {
            push_char(&mut r, ' ');
        }
        let piece = pr_str(&seq[i]);
        r.append(piece.as_str());
        proof {
            reveal_strlit(" ");
            assert(" "@ =~= seq![' ']);
            lemma_render_items_push(models.subrange(0, i as int), models[i as int]);
            assert(models.subrange(0, i as int).push(models[i as int]) =~= models.subrange(
                0,
                i + 1,
            ));
            assert(piece@ == render_model(models[i as int]));
            assert(r@ =~= start_token@ + render_items(models.subrange(0, i + 1)));
        }
        i = i + 1;
    }
    proof {
        assert(models.subrange(0, seq@.len() as int) =~= models);
    }
    r.append(end_token);
    r
}

/// A list: elements space-joined inside `(` `)`.
fn list_to_str(list: &Vec<MalVal>) -> (r: String)
    ensures
        r@ == "("@ + render_items(model_children(list@)) + ")"@,
    decreases list, 1int,
{
    seq_to_str(list, "(", ")")
}

/// A vector: elements space-joined inside `[` `]`.
fn vector_to_str(vec: &Vec<MalVal>) -> (r: String)
    ensures
        r@ == "["@ + render_items(model_children(vec@)) + "]"@,
    decreases vec, 1int,
{
    seq_to_str(vec, "[", "]")
}

/// A string value: its text escaped, inside double quotes.
fn string_to_str(string: &str) -> (r: String)
    ensures
        r@ == "\""@ + escape_model(string@) + "\""@,
{
    let body = escape(string);
    String::from_str("\"").concat(body.as_str()).concat("\"")
}

/// `true` or `false`.
fn bool_to_str(boolean: bool) -> (r: String)
    ensures
        r@ == if boolean {
            "true"@
        } else {
            "false"@
        },
{
    if boolean {
        String::from_str("true")
    } else {
        String::from_str("false")
    }
}

/// The canonical text of `form`: symbols, keywords and integers as literal
/// text, strings quoted and escaped, sequences wrapped in their bracket
/// family, a hash-map alternating key and value inside `{` `}`.
pub fn pr_str(form: &MalVal) -> (r: String)
    ensures
        r@ == render_model(form@),
    decreases *form, 2int,
{
    match form {
        MalVal::Atom(atom) => atom.clone(),
        MalVal::Boolean(boolean) => bool_to_str(*boolean),
        MalVal::Error(string) => String::from_str("ERROR: ").concat(string.as_str()),
        MalVal::HashMap(items) => seq_to_str(items, "{", "}"),
        MalVal::Int(n) => int_to_string(*n),
        MalVal::Keyword(kw) => String::from_str(":").concat(kw.as_str()),
        MalVal::List(list) => list_to_str(list),
        MalVal::Nil => String::from_str("nil"),
        MalVal::String(string) => string_to_str(string.as_str()),
        MalVal::Vector(vec) => vector_to_str(vec),
    }
}

} // verus!
