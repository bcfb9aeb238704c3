//! The tree that the reader builds, and its mathematical model.
use vstd::prelude::*;

use crate::numeral::{is_float_text, is_float_text_exec};
use crate::text::{is_digit, is_space};

verus! {

/// Text that reads as a decimal number: digits, optionally one `.` that has
/// digits on both sides.
pub open spec fn is_decimal(t: Seq<char>) -> bool {
    &&& t.len() > 0
    &&& is_digit(t[0])
    &&& is_digit(t.last())
    &&& forall|i: int| 0 <= i < t.len() ==> is_digit(#[trigger] t[i]) || t[i] == '.'
    &&& forall|i: int, j: int|
        0 <= i < j < t.len() && #[trigger] t[i] == '.' ==> #[trigger] t[j] != '.'
}

/// Text that can stand as a symbol on its own: it is not empty, holds no
/// whitespace or parenthesis, and does not begin with a digit.
pub open spec fn is_symbol_text(t: Seq<char>) -> bool {
    &&& t.len() > 0
    &&& !is_digit(t[0])
    &&& forall|i: int| 0 <= i < t.len() ==> is_atom_char(#[trigger] t[i])
}

/// A character that can be part of an atom.
pub open spec fn is_atom_char(c: char) -> bool {
    !is_space(c) && c != '(' && c != ')'
}

/// A number kept exactly as it was written: text that std's `f64` parser
/// accepts, so that the value is exact until a float is made of it.
#[derive(Debug, PartialEq)]
pub struct Decimal {
    text: String,
}

impl View for Decimal {
    type V = Seq<char>;

    closed spec fn view(&self) -> Seq<char> {
        self.text@
    }
}

impl Decimal {
    /// Accepts `text` when it is the text of a 64-bit float; otherwise hands
    /// it back.
    pub fn from_text(text: String) -> (r: Result<Decimal, String>)
        ensures
            r is Ok <==> is_float_text(text@),
            r matches Ok(d) ==> d@ == text@,
            r matches Err(t) ==> t@ == text@,
    {
        if is_float_text_exec(text.as_str()) {
            Ok(Decimal { text })
        } else {
            Err(text)
        }
    }

    /// The number's text.
    pub fn as_str(&self) -> (r: &str)
        ensures
            r@ == self@,
    {
        self.text.as_str()
    }
}

/// A symbolic expression: a number, a symbol, or a list of expressions.
#[derive(Debug, PartialEq)]
pub enum SymbolicExpr {
    Number(Decimal),
    Symbol(String),
    ListExpr(Vec<SymbolicExpr>),
}

/// The mathematical model of a [`SymbolicExpr`].
pub enum Sexp {
    Num(Seq<char>),
    Sym(Seq<char>),
    List(Seq<Sexp>),
}

impl SymbolicExpr {
    /// The model of this expression.
    pub open spec fn model(self) -> Sexp
        decreases self,
    {
        match self {
            SymbolicExpr::Number(d) => Sexp::Num(d@),
            SymbolicExpr::Symbol(s) => Sexp::Sym(s@),
            SymbolicExpr::ListExpr(v) => Sexp::List(models(v@)),
        }
    }
}

/// The models of a sequence of expressions, in order.
pub open spec fn models(s: Seq<SymbolicExpr>) -> Seq<Sexp>
    decreases s,
{
    if s.len() == 0 {
        Seq::empty()
    } else {
        models(s.drop_last()).push(s.last().model())
    }
}

/// There is one model for each expression.
pub proof fn lemma_models_len(s: Seq<SymbolicExpr>)
    ensures
        models(s).len() == s.len(),
    decreases s.len(),
{
    if s.len() > 0 {
        lemma_models_len(s.drop_last());
    }
}

/// The model of each element is the element of the models.
pub proof fn lemma_models_index(s: Seq<SymbolicExpr>, i: int)
    requires
        0 <= i < s.len(),
    ensures
        models(s).len() == s.len(),
        models(s)[i] == s[i].model(),
    decreases s.len(),
{
    lemma_models_len(s);
    if i < s.len() - 1 {
        lemma_models_index(s.drop_last(), i);
    }
}

/// Appending an expression appends its model.
pub proof fn lemma_models_push(s: Seq<SymbolicExpr>, e: SymbolicExpr)
    ensures
        models(s.push(e)) == models(s).push(e.model()),
{
    assert(s.push(e).drop_last() =~= s);
}

/// A model is well formed when every atom could have been read back from its
/// own text.
pub open spec fn wf_sexp(e: Sexp) -> bool
    decreases e,
{
    match e {
        Sexp::Num(t) => is_decimal(t),
        Sexp::Sym(t) => is_symbol_text(t),
        Sexp::List(xs) => forall|i: int| 0 <= i < xs.len() ==> wf_sexp(#[trigger] xs[i]),
    }
}

/// Every element of `xs` is well formed.
pub open spec fn wf_all(xs: Seq<Sexp>) -> bool {
    forall|i: int| 0 <= i < xs.len() ==> wf_sexp(#[trigger] xs[i])
}

} // verus!
