use crate::context::arrow_name;
use crate::parser::{
    arrow_len, digits_value, is_digit, is_name_char, is_variable_name, name_end, parse_args,
    parse_atom, parse_text, parse_type, skip_spaces,
};
use crate::printer::{decimal, digit_char, show_list, show_term};
use crate::term::Term;
use vstd::prelude::*;

verus! {

/// Whether `name` can be written as the name of a constructor: it is not
/// empty and made of letters, digits and underscores.
pub open spec fn is_name(name: Seq<char>) -> bool {
    &&& name.len() > 0
    &&& forall|k: int| 0 <= k < name.len() ==> is_name_char(#[trigger] name[k])
}

/// Whether the text of a term reads back as the term: every function type
/// in it has two sides, and every other constructor a name that can be
/// written and is not the name of a variable.
pub open spec fn printable(t: Term) -> bool
    decreases t,
{
    match t {
        Term::Var(_) => true,
        Term::Con(name, args) => {
            &&& if name == arrow_name() {
                args.len() == 2
            } else {
                is_name(name) && !is_variable_name(name)
            }
            &&& forall|i: int| 0 <= i < args.len() ==> printable(#[trigger] args[i])
        },
    }
}

/// Whether the text `text` stands in `s` from place `start` on.
pub open spec fn holds_at(s: Seq<char>, start: int, text: Seq<char>) -> bool {
    &&& 0 <= start
    &&& start + text.len() <= s.len()
    &&& s.subrange(start, start + text.len()) == text
}

/// Where a text of two parts stands, the first part stands, and the second behind it.
pub proof fn lemma_holds_parts(s: Seq<char>, start: int, a: Seq<char>, b: Seq<char>)
    requires
        holds_at(s, start, a + b),
    ensures
        holds_at(s, start, a),
        holds_at(s, start + a.len(), b),
{
    let whole = s.subrange(start, start + (a + b).len());
    assert(s.subrange(start, start + a.len()) =~= whole.subrange(0, a.len() as int));
    assert(whole.subrange(0, a.len() as int) =~= a);
    assert(s.subrange(start + a.len(), start + a.len() + b.len()) =~= whole.subrange(
        a.len() as int,
        whole.len() as int,
    ));
    assert(whole.subrange(a.len() as int, whole.len() as int) =~= b);
}

/// Each character of a text that stands in `s` stands at its place.
pub proof fn lemma_holds_char(s: Seq<char>, start: int, text: Seq<char>, k: int)
    requires
        holds_at(s, start, text),
        0 <= k < text.len(),
    ensures
        s[start + k] == text[k],
{
    assert(s.subrange(start, start + text.len())[k] == s[start + k]);
}

/// A decimal number is written with digits only, and at least one.
pub proof fn lemma_decimal_digits(n: nat)
    ensures
        decimal(n).len() > 0,
        forall|k: int| 0 <= k < decimal(n).len() ==> is_digit(#[trigger] decimal(n)[k]),
    decreases n,
{
    if n >= 10 {
        lemma_decimal_digits(n / 10);
    }
}

/// The digits that write a number write that number.
pub proof fn lemma_decimal_value(n: nat)
    ensures
        digits_value(decimal(n)) == n,
    decreases n,
{
    if n < 10 {
        assert(decimal(n).drop_last() =~= Seq::<char>::empty());
        assert(digits_value(decimal(n).drop_last()) == 0);
        assert(decimal(n).last() == digit_char(n));
    } else {
        lemma_decimal_value(n / 10);
        assert(decimal(n).drop_last() =~= decimal(n / 10));
        assert(decimal(n).last() == digit_char(n % 10));
    }
}

/// A run of characters of a name that ends where another character
/// stands, or where the text ends, is where a name ends.
pub proof fn lemma_name_run(s: Seq<char>, start: int, end: int)
    requires
        0 <= start <= end <= s.len(),
        forall|k: int| start <= k < end ==> is_name_char(#[trigger] s[k]),
        end == s.len() || !is_name_char(s[end]),
    ensures
        name_end(s, start) == end,
    decreases end - start,
{
    if start < end {
        lemma_name_run(s, start + 1, end);
    }
}

/// What the marks of the syntax are made of.
pub proof fn lemma_marks()
    ensures
        "("@ == seq!['('],
        ")"@ == seq![')'],
        ","@ == seq![','],
        " \u{2192} "@ == seq![' ', '\u{2192}', ' '],
        arrow_name() == seq!['\u{2192}'],
{
    reveal_strlit("(");
    reveal_strlit(")");
    reveal_strlit(",");
    reveal_strlit(" \u{2192} ");
    reveal_strlit("\u{2192}");
    assert("("@ =~= seq!['(']);
    assert(")"@ =~= seq![')']);
    assert(","@ =~= seq![',']);
    assert(" \u{2192} "@ =~= seq![' ', '\u{2192}', ' ']);
    assert("\u{2192}"@ =~= seq!['\u{2192}']);
}

/// The text of a printable term begins with a character of a name or with
/// an opening parenthesis.
pub proof fn lemma_show_starts(t: Term, top: bool)
    requires
        printable(t),
    ensures
        show_term(t, top).len() > 0,
        is_name_char(show_term(t, top)[0]) || show_term(t, top)[0] == '(',
    decreases t,
{
    lemma_marks();
    match t {
        Term::Var(v) => {},
        Term::Con(name, args) => {
            if args.len() == 0 {
            } else if name == arrow_name() && args.len() == 2 {
                lemma_show_starts(args[0], false);
            } else {
            }
        },
    }
}

/// The text of a list of two or more terms is the text of the first, a
/// comma, and the text of the list of the others.
pub proof fn lemma_show_list_front(ts: Seq<Term>)
    requires
        ts.len() >= 2,
    ensures
        show_list(ts) == show_term(ts[0], true) + ","@ + show_list(ts.subrange(1, ts.len() as int)),
    decreases ts.len(),
{
    let rest = ts.subrange(1, ts.len() as int);
    let front = ts.drop_last();
    if ts.len() == 2 {
        assert(front.len() == 1);
        assert(show_list(front) == show_term(front[0], true));
        assert(rest.len() == 1);
        assert(show_list(rest) == show_term(rest[0], true));
    } else {
        lemma_show_list_front(front);
        assert(front.subrange(1, front.len() as int) =~= rest.drop_last());
        assert(rest.last() == ts.last());
        assert(show_list(ts) =~= show_term(ts[0], true) + ","@ + show_list(rest));
    }
}

/// Whether the term is a function type with two sides.
pub open spec fn is_arrow_term(t: Term) -> bool {
    t is Con && t->Con_0 == arrow_name() && t->Con_1.len() == 2
}

/// Reading an operand where the text of a printable term stands, written
/// as an operand, gives the term and the place behind the text, if no
/// character of a name and no opening parenthesis follows.
pub proof fn lemma_read_atom(s: Seq<char>, i: int, start: int, t: Term)
    requires
        printable(t),
        0 <= i <= start,
        skip_spaces(s, i) == start,
        holds_at(s, start, show_term(t, false)),
        start + show_term(t, false).len() == s.len() || (!is_name_char(
            s[start + show_term(t, false).len()],
        ) && s[start + show_term(t, false).len()] != '('),
    ensures
        parse_atom(s, i) == Ok::<(Term, int), int>((t, start + show_term(t, false).len())),
    decreases t, (if is_arrow_term(t) { 1int } else { 0int }),
{
    lemma_marks();
    lemma_show_starts(t, false);
    let text = show_term(t, false);
    let end = start + text.len();
    lemma_holds_char(s, start, text, 0);
    match t {
        Term::Var(v) => {
            lemma_decimal_digits(v.0 as nat);
            lemma_decimal_value(v.0 as nat);
            assert forall|k: int| start <= k < end implies is_name_char(#[trigger] s[k]) by {
                lemma_holds_char(s, start, text, k - start);
                if k > start {
                    assert(text[k - start] == decimal(v.0 as nat)[k - start - 1]);
                }
            }
            lemma_name_run(s, start, end);
            let name = s.subrange(start, end);
            assert(name == text);
            assert forall|k: int| 1 <= k < name.len() implies is_digit(#[trigger] name[k]) by {
                assert(name[k] == decimal(v.0 as nat)[k - 1]);
            }
            assert(name.subrange(1, name.len() as int) =~= decimal(v.0 as nat));
        },
        Term::Con(name, args) => {
            if is_arrow_term(t) {
                let inner = show_term(t, true);
                assert(text == "("@ + inner + ")"@);
                lemma_holds_parts(s, start, "("@ + inner, ")"@);
                lemma_holds_parts(s, start, "("@, inner);
                lemma_show_starts(t, true);
                lemma_holds_char(s, start + 1, inner, 0);
                lemma_holds_char(s, start + 1 + inner.len(), ")"@, 0);
                lemma_read_type(s, start + 1, start + 1, t);
            } else {
                assert forall|k: int| start <= k < start + name.len() implies is_name_char(
                    #[trigger] s[k],
                ) by {
                    lemma_holds_char(s, start, text, k - start);
                }
                if args.len() == 0 {
                    lemma_name_run(s, start, end);
                    assert(args =~= Seq::<Term>::empty());
                } else {
                    let list = show_list(args);
                    assert(text == name + "("@ + list + ")"@);
                    lemma_holds_parts(s, start, name + "("@ + list, ")"@);
                    lemma_holds_parts(s, start, name + "("@, list);
                    lemma_holds_parts(s, start, name, "("@);
                    let open = start + name.len();
                    lemma_holds_char(s, open, "("@, 0);
                    lemma_name_run(s, start, open);
                    lemma_show_list_starts(args);
                    lemma_holds_char(s, open + 1, list, 0);
                    lemma_holds_char(s, open + 1 + list.len(), ")"@, 0);
                    lemma_read_args(s, open + 1, args);
                }
            }
        },
    }
}

/// The text of a list of printable terms that is not empty begins with a
/// character of a name or with an opening parenthesis.
pub proof fn lemma_show_list_starts(ts: Seq<Term>)
    requires
        ts.len() >= 1,
        forall|j: int| 0 <= j < ts.len() ==> printable(#[trigger] ts[j]),
    ensures
        show_list(ts).len() > 0,
        is_name_char(show_list(ts)[0]) || show_list(ts)[0] == '(',
{
    lemma_show_starts(ts[0], true);
    if ts.len() >= 2 {
        lemma_show_list_front(ts);
    }
}

/// Reading a type where the text of a printable term stands gives the term
/// and the place behind the text, if the text ends there or a comma or a
/// closing parenthesis follows.
pub proof fn lemma_read_type(s: Seq<char>, i: int, start: int, t: Term)
    requires
        printable(t),
        0 <= i <= start,
        skip_spaces(s, i) == start,
        holds_at(s, start, show_term(t, true)),
        start + show_term(t, true).len() == s.len() || s[start + show_term(t, true).len()] == ','
            || s[start + show_term(t, true).len()] == ')',
    ensures
        parse_type(s, i) == Ok::<(Term, int), int>((t, start + show_term(t, true).len())),
    decreases t, (if is_arrow_term(t) { 0int } else { 1int }),
{
    lemma_marks();
    let text = show_term(t, true);
    let end = start + text.len();
    if is_arrow_term(t) {
        let args = t->Con_1;
        let a = args[0];
        let b = args[1];
        let left = show_term(a, false);
        let right = show_term(b, true);
        let mark = " \u{2192} "@;
        assert(text == left + mark + right);
        lemma_holds_parts(s, start, left + mark, right);
        lemma_holds_parts(s, start, left, mark);
        let e = start + left.len();
        lemma_holds_char(s, e, mark, 0);
        lemma_holds_char(s, e, mark, 1);
        lemma_holds_char(s, e, mark, 2);
        lemma_read_atom(s, i, start, a);
        lemma_show_starts(b, true);
        lemma_holds_char(s, e + 3, right, 0);
        assert(skip_spaces(s, e + 1) == e + 1);
        assert(skip_spaces(s, e) == e + 1);
        assert(arrow_len(s, e + 1) == 1);
        assert(skip_spaces(s, e + 3) == e + 3);
        assert(skip_spaces(s, e + 2) == e + 3);
        lemma_read_type(s, e + 2, e + 3, b);
        assert(args =~= seq![a, b]);
    } else {
        assert(text == show_term(t, false));
        lemma_read_atom(s, i, start, t);
        assert(skip_spaces(s, end) == end);
        assert(arrow_len(s, end) == 0);
    }
}

/// Reading a list of arguments where the text of a list of printable terms
/// stands, with a closing parenthesis behind it, gives the terms and the
/// place behind the parenthesis.
pub proof fn lemma_read_args(s: Seq<char>, i: int, ts: Seq<Term>)
    requires
        ts.len() >= 1,
        forall|j: int| 0 <= j < ts.len() ==> printable(#[trigger] ts[j]),
        holds_at(s, i, show_list(ts)),
        i + show_list(ts).len() < s.len(),
        s[i + show_list(ts).len()] == ')',
    ensures
        parse_args(s, i) == Ok::<(Seq<Term>, int), int>((ts, i + show_list(ts).len() + 1)),
    decreases ts, 0int,
{
    lemma_marks();
    let first = ts[0];
    let text = show_term(first, true);
    lemma_show_starts(first, true);
    if ts.len() == 1 {
        assert(show_list(ts) == text);
        lemma_holds_char(s, i, text, 0);
        assert(skip_spaces(s, i) == i);
        lemma_read_type(s, i, i, first);
        let e = i + text.len();
        assert(skip_spaces(s, e) == e);
        assert(seq![first] =~= ts);
    } else {
        let rest = ts.subrange(1, ts.len() as int);
        lemma_show_list_front(ts);
        lemma_holds_parts(s, i, text + ","@, show_list(rest));
        lemma_holds_parts(s, i, text, ","@);
        lemma_holds_char(s, i, text, 0);
        let e = i + text.len();
        lemma_holds_char(s, e, ","@, 0);
        assert(skip_spaces(s, i) == i);
        lemma_read_type(s, i, i, first);
        assert(skip_spaces(s, e) == e);
        assert forall|j: int| 0 <= j < rest.len() implies printable(#[trigger] rest[j]) by {
            assert(rest[j] == ts[j + 1]);
        }
        lemma_read_args(s, e + 1, rest);
        assert(seq![first] + rest =~= ts);
    }
}

/// Reading the text of a printable term gives the term.
pub proof fn lemma_parse_show(t: Term)
    requires
        printable(t),
    ensures
        parse_text(show_term(t, true)) == Ok::<Term, int>(t),
{
    let s = show_term(t, true);
    lemma_show_starts(t, true);
    assert(s.subrange(0, s.len() as int) =~= s);
    assert(skip_spaces(s, 0) == 0);
    lemma_read_type(s, 0, 0, t);
    assert(skip_spaces(s, s.len() as int) == s.len());
}

/// Up to where a name ends, every character is a character of a name.
pub proof fn lemma_name_chars(s: Seq<char>, start: int)
    requires
        0 <= start <= s.len(),
    ensures
        start <= name_end(s, start) <= s.len(),
        forall|k: int| start <= k < name_end(s, start) ==> is_name_char(#[trigger] s[k]),
    decreases s.len() - start,
{
    if start < s.len() && is_name_char(s[start]) {
        lemma_name_chars(s, start + 1);
    }
}

/// A type that was read is printable.
pub proof fn lemma_type_read_printable(s: Seq<char>, i: int)
    requires
        parse_type(s, i) is Ok,
    ensures
        printable(parse_type(s, i)->Ok_0.0),
    decreases s.len() - i, 2int,
{
    lemma_marks();
    lemma_atom_read_printable(s, i);
    let (left, j) = parse_atom(s, i)->Ok_0;
    let k = skip_spaces(s, j);
    let a = arrow_len(s, k);
    if a != 0 {
        lemma_type_read_printable(s, k + a);
        let right = parse_type(s, k + a)->Ok_0.0;
        let args = seq![left, right];
        assert forall|n: int| 0 <= n < args.len() implies printable(#[trigger] args[n]) by {}
    }
}

/// An operand that was read is printable.
pub proof fn lemma_atom_read_printable(s: Seq<char>, i: int)
    requires
        parse_atom(s, i) is Ok,
    ensures
        printable(parse_atom(s, i)->Ok_0.0),
    decreases s.len() - i, 1int,
{
    lemma_marks();
    let start = skip_spaces(s, i);
    if s[start] == '(' {
        lemma_type_read_printable(s, start + 1);
    } else {
        let end = name_end(s, start);
        lemma_name_chars(s, start);
        let name = s.subrange(start, end);
        assert(is_name(name));
        assert(name[0] != arrow_name()[0]);
        if is_variable_name(name) {
        } else if end < s.len() && s[end] == '(' {
            let k = skip_spaces(s, end + 1);
            if 0 <= k < s.len() && s[k] == ')' {
            } else {
                lemma_args_read_printable(s, end + 1);
            }
        } else {
        }
    }
}

/// The arguments that were read are printable.
pub proof fn lemma_args_read_printable(s: Seq<char>, i: int)
    requires
        parse_args(s, i) is Ok,
    ensures
        forall|n: int|
            0 <= n < parse_args(s, i)->Ok_0.0.len() ==> printable(
                #[trigger] parse_args(s, i)->Ok_0.0[n],
            ),
    decreases s.len() - i, 3int,
{
    lemma_type_read_printable(s, i);
    let (t, j) = parse_type(s, i)->Ok_0;
    let k = skip_spaces(s, j);
    if 0 <= k < s.len() && s[k] == ')' {
    } else {
        lemma_args_read_printable(s, k + 1);
        let rest = parse_args(s, k + 1)->Ok_0.0;
        let all = seq![t] + rest;
        assert forall|n: int| 0 <= n < all.len() implies printable(#[trigger] all[n]) by {
            if n > 0 {
                assert(all[n] == rest[n - 1]);
            }
        }
    }
}

/// The text of a term that was read from a text reads back as the same term.
pub proof fn lemma_show_parse(s: Seq<char>)
    requires
        parse_text(s) is Ok,
    ensures
        printable(parse_text(s)->Ok_0),
        parse_text(show_term(parse_text(s)->Ok_0, true)) == parse_text(s),
{
    lemma_type_read_printable(s, 0);
    lemma_parse_show(parse_text(s)->Ok_0);
}

} // verus!
