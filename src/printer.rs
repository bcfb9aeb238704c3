//! Canonical text of expressions: atoms as written, list elements separated
//! by one space, lists in parentheses.
use vstd::prelude::*;

use crate::expr::{lemma_models_index, lemma_models_len, models, Sexp, SymbolicExpr};
use crate::text::push_char;

verus! {

/// The canonical text of one expression.
pub open spec fn print_sexp(e: Sexp) -> Seq<char>
    decreases e,
{
    match e {
        Sexp::Num(t) => t,
        Sexp::Sym(t) => t,
        Sexp::List(xs) => seq!['('] + print_seq(xs) + seq![')'],
    }
}

/// The canonical text of a sequence of expressions: each one's text, with one
/// space between neighbours.
pub open spec fn print_seq(xs: Seq<Sexp>) -> Seq<char>
    decreases xs,
{
    if xs.len() == 0 {
        Seq::empty()
    } else if xs.len() == 1 {
        print_sexp(xs[0])
    } else {
        print_seq(xs.subrange(0, xs.len() - 1)) + seq![' '] + print_sexp(xs[xs.len() - 1])
    }
}

/// Appends the canonical text of `e` to `out`; recurses once per level of
/// list nesting.
fn write_expr(e: &SymbolicExpr, out: &mut String)
    ensures
        final(out)@ == old(out)@ + print_sexp(e.model()),
    decreases e,
{
    match e {
        SymbolicExpr::Number(d) => out.append(d.as_str()),
        SymbolicExpr::Symbol(s) => out.append(s.as_str()),
        SymbolicExpr::ListExpr(v) => {
            push_char(out, '(');
            write_seq(v, out);
            push_char(out, ')');
            assert(final(out)@ =~= old(out)@ + print_sexp(e.model()));
        },
    }
}

/// Appends the canonical text of the expressions of `v` to `out`.
fn write_seq(v: &Vec<SymbolicExpr>, out: &mut String)
    ensures
        final(out)@ == old(out)@ + print_seq(models(v@)),
    decreases v,
{
    let ghost start = out@;
    let ghost xs = models(v@);
    proof {
        lemma_models_len(v@);
        assert(xs.subrange(0, 0) =~= Seq::<Sexp>::empty());
        assert(out@ =~= start + print_seq(xs.subrange(0, 0)));
    }
    let n = v.len();
    for i in 0..n
        invariant
            n == v.len(),
            xs == models(v@),
            xs.len() == v.len(),
            out@ == start + print_seq(xs.subrange(0, i as int)),
    {
        if i > 0 {
            push_char(out, ' ');
        }
        proof {
            lemma_models_index(v@, i as int);
            assert(decreases_to!(v => v@));
            assert(decreases_to!(v@ => v@[i as int]));
        }
        write_expr(&v[i], out);
        proof {
            let ys = xs.subrange(0, i + 1);
            assert(ys.subrange(0, ys.len() - 1) =~= xs.subrange(0, i as int));
            assert(ys[ys.len() - 1] == xs[i as int]);
            assert(out@ =~= start + print_seq(ys));
        }
    }
    proof {
        assert(xs.subrange(0, n as int) =~= xs);
    }
}

/// The canonical text of a sequence of expressions.
///
/// Reading that text gives back the same sequence when every atom is well
/// formed (`wf_all` of the models), as in everything that `read` returns
/// (see `lemma_reread`). Other atoms need not survive: an empty symbol, a
/// symbol holding whitespace or a parenthesis, or a number in a form other
/// than digits with at most one inner `.` (such as `1e5`), reads back as
/// something else or as an error.
///
/// Unlike the reader, the printer recurses once per level of list nesting,
/// so it uses call stack in proportion to the depth of the deepest list.
pub fn to_text(exprs: &Vec<SymbolicExpr>) -> (r: String)
    ensures
        r@ == print_seq(models(exprs@)),
{
    let mut out = String::new();
    write_seq(exprs, &mut out);
    assert(out@ =~= print_seq(models(exprs@)));
    out
}

} // verus!
