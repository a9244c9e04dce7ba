use crate::context::arrow_term;
use crate::owned::{lemma_view_con, views, OwnedType};
use crate::syntax::{lemma_show_parse, printable};
use crate::term::Term;
use crate::types::Variable;
use vstd::prelude::*;
use vstd::string::StrSliceExecFns;
use vstd::string::StringExecFns;

verus! {

/// Why a text is not a type: the place, counted in characters, where reading could not go on.
#[derive(Copy, Clone, Debug, PartialEq, Eq, Structural)]
pub struct ParseError {
    pub position: usize,
}

/// Whether `c` may stand in a name: a letter, a digit or an underscore.
pub open spec fn is_name_char(c: char) -> bool {
    ('a' <= c && c <= 'z') || ('A' <= c && c <= 'Z') || ('0' <= c && c <= '9') || c == '_'
}

/// Whether `c` is a decimal digit.
pub open spec fn is_digit(c: char) -> bool {
    '0' <= c && c <= '9'
}

/// The first place at or after `i` that holds no space.
pub open spec fn skip_spaces(s: Seq<char>, i: int) -> int
    decreases s.len() - i,
{
    if 0 <= i < s.len() && s[i] == ' ' {
        skip_spaces(s, i + 1)
    } else {
        i
    }
}

/// The first place at or after `i` that holds no character of a name.
pub open spec fn name_end(s: Seq<char>, i: int) -> int
    decreases s.len() - i,
{
    if 0 <= i < s.len() && is_name_char(s[i]) {
        name_end(s, i + 1)
    } else {
        i
    }
}

/// Whether a name is that of a variable: the letter `t` and then digits only.
pub open spec fn is_variable_name(name: Seq<char>) -> bool {
    &&& name.len() >= 2
    &&& name[0] == 't'
    &&& forall|k: int| 1 <= k < name.len() ==> is_digit(#[trigger] name[k])
}

/// The number that a row of decimal digits writes.
pub open spec fn digits_value(d: Seq<char>) -> nat
    decreases d.len(),
{
    if d.len() == 0 {
        0
    } else {
        digits_value(d.drop_last()) * 10 + (d.last() as u32 - '0' as u32) as nat
    }
}

/// The length of the arrow that stands at `i`: 1 for the arrow sign, 2 for
/// a hyphen and a greater-than sign, 0 if there is no arrow.
pub open spec fn arrow_len(s: Seq<char>, i: int) -> int {
    if 0 <= i < s.len() && s[i] == '\u{2192}' {
        1
    } else if 0 <= i && i + 1 < s.len() && s[i] == '-' && s[i + 1] == '>' {
        2
    } else {
        0
    }
}

/// Reads a type from place `i` on: an operand, and, if an arrow follows,
/// the type right of the arrow, so that arrows group to the right. Gives
/// the term and the place after it, or the place where reading stopped.
pub open spec fn parse_type(s: Seq<char>, i: int) -> Result<(Term, int), int>
    decreases s.len() - i, 2int,
{
    if i < 0 || i > s.len() {
        Err(i)
    } else {
        match parse_atom(s, i) {
            Err(p) => Err(p),
            Ok((left, j)) => {
                let k = skip_spaces(s, j);
                let a = arrow_len(s, k);
                if a == 0 {
                    Ok((left, j))
                } else if i < k + a <= s.len() {
                    match parse_type(s, k + a) {
                        Err(p) => Err(p),
                        Ok((right, m)) => Ok((arrow_term(left, right), m)),
                    }
                } else {
                    Err(k)
                }
            },
        }
    }
}

/// Reads an operand from place `i` on, after spaces: a type in
/// parentheses, a variable, or a name with or without a list of arguments
/// in parentheses.
pub open spec fn parse_atom(s: Seq<char>, i: int) -> Result<(Term, int), int>
    decreases s.len() - i, 1int,
{
    let start = skip_spaces(s, i);
    if i < 0 || start < i || start >= s.len() {
        Err(start)
    } else if s[start] == '(' {
        match parse_type(s, start + 1) {
            Err(p) => Err(p),
            Ok((t, j)) => {
                let k = skip_spaces(s, j);
                if 0 <= k < s.len() && s[k] == ')' {
                    Ok((t, k + 1))
                } else {
                    Err(k)
                }
            },
        }
    } else {
        let end = name_end(s, start);
        if end <= start || end > s.len() {
            Err(start)
        } else {
            let name = s.subrange(start, end);
            if is_variable_name(name) {
                let n = digits_value(name.subrange(1, name.len() as int));
                if n <= usize::MAX {
                    Ok((Term::Var(Variable(n as usize)), end))
                } else {
                    Err(start)
                }
            } else if end < s.len() && s[end] == '(' {
                let k = skip_spaces(s, end + 1);
                if 0 <= k < s.len() && s[k] == ')' {
                    Ok((Term::Con(name, Seq::empty()), k + 1))
                } else {
                    match parse_args(s, end + 1) {
                        Err(p) => Err(p),
                        Ok((args, j)) => Ok((Term::Con(name, args), j)),
                    }
                }
            } else {
                Ok((Term::Con(name, Seq::empty()), end))
            }
        }
    }
}

/// Reads a list of arguments from place `i` on, behind the opening
/// parenthesis: types with commas between them, up to and with the
/// closing parenthesis.
pub open spec fn parse_args(s: Seq<char>, i: int) -> Result<(Seq<Term>, int), int>
    decreases s.len() - i, 3int,
{
    if i < 0 || i > s.len() {
        Err(i)
    } else {
        match parse_type(s, i) {
            Err(p) => Err(p),
            Ok((t, j)) => {
                let k = skip_spaces(s, j);
                if 0 <= k < s.len() && s[k] == ')' {
                    Ok((seq![t], k + 1))
                } else if i <= k < s.len() && s[k] == ',' {
                    match parse_args(s, k + 1) {
                        Err(p) => Err(p),
                        Ok((rest, m)) => Ok((seq![t] + rest, m)),
                    }
                } else {
                    Err(k)
                }
            },
        }
    }
}

/// Reads a whole text as one type: the term, or the place where reading stopped.
pub open spec fn parse_text(s: Seq<char>) -> Result<Term, int> {
    match parse_type(s, 0) {
        Err(p) => Err(p),
        Ok((t, j)) => {
            let k = skip_spaces(s, j);
            if k == s.len() {
                Ok(t)
            } else {
                Err(k)
            }
        },
    }
}

fn name_char(c: char) -> (b: bool)
    ensures
        b == is_name_char(c),
{
    ('a' <= c && c <= 'z') || ('A' <= c && c <= 'Z') || ('0' <= c && c <= '9') || c == '_'
}

fn spaces(chars: &[char], i: usize) -> (k: usize)
    requires
        i <= chars@.len(),
    ensures
        k == skip_spaces(chars@, i as int),
        i <= k <= chars@.len(),
{
    let mut k = i;
    while k < chars.len() && chars[k] == ' '
        invariant
            i <= k <= chars@.len(),
            skip_spaces(chars@, k as int) == skip_spaces(chars@, i as int),
        decreases chars@.len() - k,
    {
        k += 1;
    }
    k
}

fn name_run(chars: &[char], i: usize) -> (k: usize)
    requires
        i <= chars@.len(),
    ensures
        k == name_end(chars@, i as int),
        i <= k <= chars@.len(),
{
    let mut k = i;
    while k < chars.len() && name_char(chars[k])
        invariant
            i <= k <= chars@.len(),
            name_end(chars@, k as int) == name_end(chars@, i as int),
        decreases chars@.len() - k,
    {
        k += 1;
    }
    k
}

fn arrow_at(chars: &[char], i: usize) -> (a: usize)
    requires
        i <= chars@.len(),
    ensures
        a == arrow_len(chars@, i as int),
        i + a <= chars@.len(),
{
    if i < chars.len() && chars[i] == '\u{2192}' {
        1
    } else if i < chars.len() && chars.len() - i > 1 && chars[i] == '-' && chars[i + 1] == '>' {
        2
    } else {
        0
    }
}

/// Whether the characters from `start` to `end` are the name of a variable,
/// and if so the number of the variable, unless it is too large.
fn variable_at(chars: &[char], start: usize, end: usize) -> (r: Option<Option<usize>>)
    requires
        start < end <= chars@.len(),
    ensures
        r is Some == is_variable_name(chars@.subrange(start as int, end as int)),
        r is Some ==> ({
            let name = chars@.subrange(start as int, end as int);
            let n = digits_value(name.subrange(1, name.len() as int));
            r->0 == (if n <= usize::MAX {
                Some(n as usize)
            } else {
                None
            })
        }),
{
    let ghost name = chars@.subrange(start as int, end as int);
    if chars[start] != 't' || end - start < 2 {
        assert(name[0] == chars@[start as int]);
        return None;
    }
    let ghost digits = name.subrange(1, name.len() as int);
    let mut value: Option<usize> = Some(0);
    let mut k = start + 1;
    assert(digits.take(0) =~= Seq::<char>::empty());
    while k < end
        invariant
            start + 1 <= k <= end <= chars@.len(),
            name == chars@.subrange(start as int, end as int),
            digits == name.subrange(1, name.len() as int),
            name[0] == 't',
            forall|j: int| 1 <= j < k - start ==> is_digit(#[trigger] name[j]),
            match value {
                Some(n) => n == digits_value(digits.take(k - start - 1)),
                None => digits_value(digits.take(k - start - 1)) > usize::MAX,
            },
        decreases end - k,
    {
        let c = chars[k];
        assert(name[k - start] == c);
        if !('0' <= c && c <= '9') {
            return None;
        }
        let d = (c as u32 - '0' as u32) as usize;
        proof {
            let upto = digits.take(k - start);
            assert(upto.drop_last() =~= digits.take(k - start - 1));
            assert(upto.last() == c);
        }
        value = match value {
            Some(n) => if n <= (usize::MAX - d) / 10 {
                Some(n * 10 + d)
            } else {
                None
            },
            None => None,
        };
        k += 1;
    }
    assert(digits.take(k - start - 1) =~= digits);
    Some(value)
}

fn read_type(text: &str, chars: &[char], i: usize) -> (r: Result<(OwnedType, usize), ParseError>)
    requires
        chars@ == text@,
        i <= chars@.len(),
    ensures
        match parse_type(chars@, i as int) {
            Ok((t, j)) => r is Ok && r->Ok_0.0@ == t && r->Ok_0.1 == j && j <= chars@.len(),
            Err(p) => r is Err && r->Err_0.position == p,
        },
    decreases chars@.len() - i, 2int,
{
    let (left, j) = match read_atom(text, chars, i) {
        Err(e) => {
            return Err(e);
        },
        Ok(found) => found,
    };
    let k = spaces(chars, j);
    let a = arrow_at(chars, k);
    if a == 0 {
        Ok((left, j))
    } else if a <= chars.len() - k && i < k + a {
        match read_type(text, chars, k + a) {
            Err(e) => Err(e),
            Ok((right, m)) => Ok((OwnedType::arrow(left, right), m)),
        }
    } else {
        Err(ParseError { position: k })
    }
}

fn read_atom(text: &str, chars: &[char], i: usize) -> (r: Result<(OwnedType, usize), ParseError>)
    requires
        chars@ == text@,
        i <= chars@.len(),
    ensures
        match parse_atom(chars@, i as int) {
            Ok((t, j)) => r is Ok && r->Ok_0.0@ == t && r->Ok_0.1 == j && j <= chars@.len(),
            Err(p) => r is Err && r->Err_0.position == p,
        },
    decreases chars@.len() - i, 1int,
{
    let start = spaces(chars, i);
    if start >= chars.len() {
        return Err(ParseError { position: start });
    }
    if chars[start] == '(' {
        match read_type(text, chars, start + 1) {
            Err(e) => Err(e),
            Ok((t, j)) => {
                let k = spaces(chars, j);
                if k < chars.len() && chars[k] == ')' {
                    Ok((t, k + 1))
                } else {
                    Err(ParseError { position: k })
                }
            },
        }
    } else {
        let end = name_run(chars, start);
        if end <= start {
            return Err(ParseError { position: start });
        }
        match variable_at(chars, start, end) {
            Some(Some(n)) => Ok((OwnedType::Variable(Variable(n)), end)),
            Some(None) => Err(ParseError { position: start }),
            None => {
                let name = String::from_str(text.substring_char(start, end));
                if end < chars.len() && chars[end] == '(' {
                    let k = spaces(chars, end + 1);
                    if k < chars.len() && chars[k] == ')' {
                        let args: Vec<OwnedType> = Vec::new();
                        proof {
                            lemma_view_con(name, args);
                            assert(views(args@) =~= Seq::<Term>::empty());
                        }
                        Ok((OwnedType::Constructed(name, args), k + 1))
                    } else {
                        let mut args: Vec<OwnedType> = Vec::new();
                        match read_args(text, chars, end + 1, &mut args) {
                            Err(e) => Err(e),
                            Ok(j) => {
                                proof {
                                    lemma_view_con(name, args);
                                    assert(views(Seq::<OwnedType>::empty()) + parse_args(
                                        chars@,
                                        end + 1,
                                    )->Ok_0.0 =~= parse_args(chars@, end + 1)->Ok_0.0);
                                }
                                Ok((OwnedType::Constructed(name, args), j))
                            },
                        }
                    }
                } else {
                    let args: Vec<OwnedType> = Vec::new();
                    proof {
                        lemma_view_con(name, args);
                        assert(views(args@) =~= Seq::<Term>::empty());
                    }
                    Ok((OwnedType::Constructed(name, args), end))
                }
            },
        }
    }
}

fn read_args(text: &str, chars: &[char], i: usize, args: &mut Vec<OwnedType>) -> (r: Result<
    usize,
    ParseError,
>)
    requires
        chars@ == text@,
        i <= chars@.len(),
    ensures
        match parse_args(chars@, i as int) {
            Ok((list, j)) => r is Ok && r->Ok_0 == j && j <= chars@.len() && views(final(args)@)
                == views(old(args)@) + list,
            Err(p) => r is Err && r->Err_0.position == p,
        },
    decreases chars@.len() - i, 3int,
{
    let (t, j) = match read_type(text, chars, i) {
        Err(e) => {
            return Err(e);
        },
        Ok(found) => found,
    };
    let k = spaces(chars, j);
    if k < chars.len() && chars[k] == ')' {
        args.push(t);
        proof {
            assert(views(args@) =~= views(old(args)@) + seq![t@]);
        }
        Ok(k + 1)
    } else if i <= k && k < chars.len() && chars[k] == ',' {
        args.push(t);
        let ghost mid = args@;
        let r = read_args(text, chars, k + 1, args);
        proof {
            if r is Ok {
                let rest = parse_args(chars@, k + 1)->Ok_0.0;
                assert(views(mid) =~= views(old(args)@) + seq![t@]);
                assert(views(old(args)@) + seq![t@] + rest =~= views(old(args)@) + (seq![t@]
                    + rest));
            }
        }
        r
    } else {
        Err(ParseError { position: k })
    }
}

impl OwnedType {
    /// Reads a type from its text: names, variables written `t` and a
    /// number, argument lists in parentheses with commas, and arrows, which
    /// group to the right. Spaces may stand between the parts.
    pub fn parse(text: &str) -> (r: Result<OwnedType, ParseError>)
        ensures
            match parse_text(text@) {
                Ok(t) => r is Ok && r->Ok_0@ == t,
                Err(p) => r is Err && r->Err_0.position == p,
            },
            r is Ok ==> printable(r->Ok_0@),
    {
        proof {
            if parse_text(text@) is Ok {
                lemma_show_parse(text@);
            }
        }
        let n = text.unicode_len();
        let mut chars: Vec<char> = Vec::with_capacity(n);
        let mut i: usize = 0;
        while i < n
            invariant
                n == text@.len(),
                i <= n,
                chars@ == text@.take(i as int),
            decreases n - i,
        {
            chars.push(text.get_char(i));
            i += 1;
            assert(chars@ =~= text@.take(i as int));
        }
        assert(text@.take(n as int) =~= text@);
        match read_type(text, chars.as_slice(), 0) {
            Err(e) => Err(e),
            Ok((t, j)) => {
                let k = spaces(chars.as_slice(), j);
                if k == chars.len() {
                    Ok(t)
                } else {
                    Err(ParseError { position: k })
                }
            },
        }
    }
}

} // verus!
