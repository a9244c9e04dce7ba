use crate::context::arrow_name;
use crate::owned::{lemma_view_con, views, OwnedType};
use crate::parser::parse_text;
use crate::syntax::{lemma_parse_show, printable};
use crate::term::{lemma_height_arg, Term};
use vstd::prelude::*;
use vstd::string::StrSliceExecFns;
use vstd::string::StringExecFns;

verus! {

/// The character that writes the digit `d`.
pub open spec fn digit_char(d: nat) -> char {
    if d == 0 {
        '0'
    } else if d == 1 {
        '1'
    } else if d == 2 {
        '2'
    } else if d == 3 {
        '3'
    } else if d == 4 {
        '4'
    } else if d == 5 {
        '5'
    } else if d == 6 {
        '6'
    } else if d == 7 {
        '7'
    } else if d == 8 {
        '8'
    } else {
        '9'
    }
}

/// The number `n` written in decimal digits, without leading zeros.
pub open spec fn decimal(n: nat) -> Seq<char>
    decreases n,
{
    if n < 10 {
        seq![digit_char(n)]
    } else {
        decimal(n / 10).push(digit_char(n % 10))
    }
}

/// The text of a term. A variable is written `t` and its number; a name
/// without arguments alone; a function type with an arrow between its two
/// sides, in parentheses unless it is at the `top` or right of an arrow or
/// in an argument list; any other term as its name and, in parentheses and
/// with commas between them, its arguments.
pub open spec fn show_term(t: Term, top: bool) -> Seq<char>
    decreases t,
{
    match t {
        Term::Var(v) => seq!['t'] + decimal(v.0 as nat),
        Term::Con(name, args) => if args.len() == 0 {
            name
        } else if name == arrow_name() && args.len() == 2 {
            let inner = show_term(args[0], false) + " \u{2192} "@ + show_term(args[1], true);
            if top {
                inner
            } else {
                "("@ + inner + ")"@
            }
        } else {
            name + "("@ + show_list(args) + ")"@
        },
    }
}

/// The texts of the terms of a list, with commas between them.
pub open spec fn show_list(ts: Seq<Term>) -> Seq<char>
    decreases ts,
{
    if ts.len() == 0 {
        Seq::empty()
    } else if ts.len() == 1 {
        show_term(ts[0], true)
    } else {
        show_list(ts.drop_last()) + ","@ + show_term(ts.last(), true)
    }
}

fn digit_str(d: usize) -> (s: &'static str)
    requires
        d < 10,
    ensures
        s@ == seq![digit_char(d as nat)],
{
    proof {
        reveal_strlit("0");
        reveal_strlit("1");
        reveal_strlit("2");
        reveal_strlit("3");
        reveal_strlit("4");
        reveal_strlit("5");
        reveal_strlit("6");
        reveal_strlit("7");
        reveal_strlit("8");
        reveal_strlit("9");
    }
    let s = if d == 0 {
        "0"
    } else if d == 1 {
        "1"
    } else if d == 2 {
        "2"
    } else if d == 3 {
        "3"
    } else if d == 4 {
        "4"
    } else if d == 5 {
        "5"
    } else if d == 6 {
        "6"
    } else if d == 7 {
        "7"
    } else if d == 8 {
        "8"
    } else {
        "9"
    };
    assert(s@ =~= seq![digit_char(d as nat)]);
    s
}

fn push_decimal(out: &mut String, n: usize)
    ensures
        final(out)@ == old(out)@ + decimal(n as nat),
    decreases n,
{
    if n >= 10 {
        push_decimal(out, n / 10);
    }
    out.append(digit_str(n % 10));
    assert(out@ =~= old(out)@ + decimal(n as nat));
}

fn is_arrow(name: &str) -> (b: bool)
    ensures
        b == (name@ == arrow_name()),
{
    proof {
        reveal_strlit("\u{2192}");
    }
    let b = name.unicode_len() == 1 && name.get_char(0) == '\u{2192}';
    assert(b ==> name@ =~= arrow_name());
    b
}

impl OwnedType {
    /// The text of the term, which `parse` reads back.
    pub fn show(&self) -> (text: String)
        ensures
            text@ == show_term(self@, true),
            printable(self@) ==> parse_text(text@) == Ok::<Term, int>(self@),
    {
        proof {
            if printable(self@) {
                lemma_parse_show(self@);
            }
        }
        let mut out = String::new();
        self.show_into(&mut out, true);
        assert(Seq::<char>::empty() + show_term(self@, true) =~= show_term(self@, true));
        out
    }

    fn show_into(&self, out: &mut String, top: bool)
        ensures
            final(out)@ == old(out)@ + show_term(self@, top),
        decreases self@.height(),
    {
        match self {
            OwnedType::Variable(v) => {
                out.append("t");
                push_decimal(out, v.0);
                proof {
                    reveal_strlit("t");
                    assert("t"@ =~= seq!['t']);
                    assert(out@ =~= old(out)@ + (seq!['t'] + decimal(v.0 as nat)));
                }
            },
            OwnedType::Constructed(name, args) => {
                proof {
                    lemma_view_con(*name, *args);
                }
                let ghost terms = views(args@);
                if args.len() == 0 {
                    out.append(name.as_str());
                } else if is_arrow(name.as_str()) && args.len() == 2 {
                    proof {
                        lemma_height_arg(name@, terms, 0);
                        lemma_height_arg(name@, terms, 1);
                    }
                    if !top {
                        out.append("(");
                    }
                    args[0].show_into(out, false);
                    out.append(" \u{2192} ");
                    args[1].show_into(out, true);
                    if !top {
                        out.append(")");
                    }
                    proof {
                        let inner = show_term(terms[0], false) + " \u{2192} "@ + show_term(
                            terms[1],
                            true,
                        );
                        if top {
                            assert(out@ =~= old(out)@ + inner);
                        } else {
                            assert(out@ =~= old(out)@ + ("("@ + inner + ")"@));
                        }
                    }
                } else {
                    out.append(name.as_str());
                    out.append("(");
                    let ghost start = out@;
                    let mut i: usize = 0;
                    proof {
                        assert(terms.take(0) =~= Seq::<Term>::empty());
                        assert(start + show_list(terms.take(0)) =~= start);
                    }
                    while i < args.len()
                        invariant
                            i <= args.len(),
                            terms == views(args@),
                            self@ == Term::Con(name@, terms),
                            out@ == start + show_list(terms.take(i as int)),
                        decreases args.len() - i,
                    {
                        proof {
                            lemma_height_arg(name@, terms, i as int);
                            let upto = terms.take(i + 1);
                            assert(upto.drop_last() =~= terms.take(i as int));
                            assert(upto.last() == terms[i as int]);
                        }
                        let ghost before = out@;
                        if i > 0 {
                            out.append(",");
                        }
                        args[i].show_into(out, true);
                        proof {
                            let upto = terms.take(i + 1);
                            if i > 0 {
                                assert(out@ =~= start + (show_list(terms.take(i as int)) + ","@
                                    + show_term(terms[i as int], true)));
                            } else {
                                assert(show_list(terms.take(0)) =~= Seq::<char>::empty());
                                assert(out@ =~= start + show_term(terms[0], true));
                            }
                        }
                        i += 1;
                    }
                    out.append(")");
                    proof {
                        assert(terms.take(i as int) =~= terms);
                        assert(out@ =~= old(out)@ + (name@ + "("@ + show_list(terms) + ")"@));
                    }
                }
            },
        }
    }
}

} // verus!
