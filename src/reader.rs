//! The reader: a tokenizer state machine, an atom finalizer and a nesting
//! stack, run over the input in one pass without recursion.
use vstd::prelude::*;

use crate::error::{Fault, ReadError};
use crate::expr::{models, lemma_models_push, Decimal, Sexp, SymbolicExpr};
use crate::numeral::is_float_text;
use crate::text::{is_digit, is_digit_char, is_space, is_space_char, push_char};

verus! {

/// The tokenizer's state: what kind of run, if any, is being accumulated.
#[derive(Clone, Copy, Debug, PartialEq, Eq, Structural)]
pub enum ScanState {
    /// Between tokens.
    Start,
    /// Inside a symbol.
    Symbol,
    /// Inside the digits of a number.
    Integer,
    /// Just after the `.` of a number.
    IncompleteFloating,
    /// Inside the digits after the `.` of a number.
    Floating,
}

/// The reader's state in the model: the tokenizer state, the characters of
/// the pending atom, the list being built and the stack of enclosing lists.
pub struct ReadState {
    pub scan: ScanState,
    pub accum: Seq<char>,
    pub items: Seq<Sexp>,
    pub open: Seq<Seq<Sexp>>,
}

/// The state before any input.
pub open spec fn initial() -> ReadState {
    ReadState { scan: ScanState::Start, accum: Seq::empty(), items: Seq::empty(), open: Seq::empty() }
}

/// The atom that a finished run of characters makes in a given state.
pub open spec fn atom_of(scan: ScanState, accum: Seq<char>) -> Result<Sexp, Fault> {
    match scan {
        ScanState::Symbol => Ok(Sexp::Sym(accum)),
        ScanState::Integer | ScanState::Floating => if is_float_text(accum) {
            Ok(Sexp::Num(accum))
        } else {
            Err(Fault::NumberFormat(accum))
        },
        _ => Err(Fault::InvalidAtom),
    }
}

/// Ends the pending atom, if any, and appends it to the current list.
pub open spec fn flush(p: ReadState) -> Result<ReadState, Fault> {
    if p.scan == ScanState::Start {
        Ok(p)
    } else {
        match atom_of(p.scan, p.accum) {
            Ok(a) => Ok(
                ReadState {
                    scan: ScanState::Start,
                    accum: Seq::empty(),
                    items: p.items.push(a),
                    open: p.open,
                },
            ),
            Err(f) => Err(f),
        }
    }
}

/// The effect of one character that is not whitespace or a parenthesis.
pub open spec fn scan_char(p: ReadState, c: char) -> Result<ReadState, Fault> {
    let next = |s: ScanState| ReadState { scan: s, accum: p.accum.push(c), ..p };
    match p.scan {
        ScanState::Start => if is_digit(c) {
            Ok(next(ScanState::Integer))
        } else {
            Ok(next(ScanState::Symbol))
        },
        ScanState::Symbol => Ok(next(ScanState::Symbol)),
        ScanState::Integer => if is_digit(c) {
            Ok(next(ScanState::Integer))
        } else if c == '.' {
            Ok(next(ScanState::IncompleteFloating))
        } else {
            Err(Fault::InvalidNumber)
        },
        ScanState::IncompleteFloating | ScanState::Floating => if is_digit(c) {
            Ok(next(ScanState::Floating))
        } else {
            Err(Fault::InvalidNumber)
        },
    }
}

/// The effect of one character on the reader.
pub open spec fn step(p: ReadState, c: char) -> Result<ReadState, Fault> {
    if is_space(c) {
        flush(p)
    } else if c == '(' {
        match flush(p) {
            Ok(q) => Ok(ReadState { items: Seq::empty(), open: q.open.push(q.items), ..q }),
            Err(f) => Err(f),
        }
    } else if c == ')' {
        match flush(p) {
            Ok(q) => if q.open.len() == 0 {
                Err(Fault::UnmatchedClose)
            } else {
                Ok(
                    ReadState {
                        items: q.open.last().push(Sexp::List(q.items)),
                        open: q.open.drop_last(),
                        ..q
                    },
                )
            },
            Err(f) => Err(f),
        }
    } else {
        scan_char(p, c)
    }
}

/// The reader's state after the characters `s`, starting from `p`; the first
/// error stops it.
pub open spec fn run_from(p: ReadState, s: Seq<char>) -> Result<ReadState, Fault>
    decreases s.len(),
{
    if s.len() == 0 {
        Ok(p)
    } else {
        match run_from(p, s.drop_last()) {
            Ok(q) => step(q, s.last()),
            Err(f) => Err(f),
        }
    }
}

/// End of input: the pending atom is ended, and every list must be closed.
pub open spec fn finish(p: ReadState) -> Result<Seq<Sexp>, Fault> {
    match flush(p) {
        Ok(q) => if q.open.len() == 0 {
            Ok(q.items)
        } else {
            Err(Fault::UnmatchedOpen)
        },
        Err(f) => Err(f),
    }
}

/// What reading the text `s` gives: the top-level expressions in order, or
/// the first error.
pub open spec fn read_text(s: Seq<char>) -> Result<Seq<Sexp>, Fault> {
    match run_from(initial(), s) {
        Ok(p) => finish(p),
        Err(f) => Err(f),
    }
}

/// The model of an atom result.
pub open spec fn atom_view(r: Result<SymbolicExpr, ReadError>) -> Result<Sexp, Fault> {
    match r {
        Ok(e) => Ok(e.model()),
        Err(e) => Err(e@),
    }
}

/// The model of a reading result.
pub open spec fn read_view(r: Result<Vec<SymbolicExpr>, ReadError>) -> Result<Seq<Sexp>, Fault> {
    match r {
        Ok(v) => Ok(models(v@)),
        Err(e) => Err(e@),
    }
}

/// Turns a finished run of characters into an atom, as the tokenizer state
/// in which the run ended says.
pub fn to_atom(state: ScanState, accum: String) -> (r: Result<SymbolicExpr, ReadError>)
    ensures
        atom_view(r) == atom_of(state, accum@),
{
    match state {
        ScanState::Symbol => Ok(SymbolicExpr::Symbol(accum)),
        ScanState::Integer | ScanState::Floating => match Decimal::from_text(accum) {
            Ok(d) => Ok(SymbolicExpr::Number(d)),
            Err(t) => Err(ReadError::NumberFormat(t)),
        },
        _ => Err(ReadError::InvalidAtom),
    }
}

/// The model state that the reader's executable variables stand for.
pub open spec fn abstract_state(
    scan: ScanState,
    accum: Seq<char>,
    exprs: Seq<SymbolicExpr>,
    stack: Seq<Vec<SymbolicExpr>>,
) -> ReadState {
    ReadState {
        scan,
        accum,
        items: models(exprs),
        open: stack.map_values(|v: Vec<SymbolicExpr>| models(v@)),
    }
}

/// Once the reader has failed on a prefix of the input, it fails in the same
/// way on the whole input.
pub proof fn lemma_error_persists(p: ReadState, s: Seq<char>, n: int)
    requires
        0 <= n <= s.len(),
        run_from(p, s.take(n)) is Err,
    ensures
        run_from(p, s) == run_from(p, s.take(n)),
    decreases s.len(),
{
    if s.len() == n {
        assert(s.take(n) =~= s);
    } else {
        assert(s.drop_last().take(n) =~= s.take(n));
        lemma_error_persists(p, s.drop_last(), n);
    }
}

/// Ends the pending atom, if any, and appends it to the current list.
fn end_atom(
    state: &mut ScanState,
    accum: &mut String,
    exprs: &mut Vec<SymbolicExpr>,
    stack: &Vec<Vec<SymbolicExpr>>,
) -> (r: Result<(), ReadError>)
    ensures
        match flush(abstract_state(*old(state), old(accum)@, old(exprs)@, stack@)) {
            Ok(q) => r is Ok && q == abstract_state(
                *final(state),
                final(accum)@,
                final(exprs)@,
                stack@,
            ),
            Err(f) => (r matches Err(e) && e@ == f),
        },
{
    if *state == ScanState::Start {
        return Ok(());
    }
    let mut text = String::new();
    core::mem::swap(accum, &mut text);
    match to_atom(*state, text) {
        Ok(atom) => {
            proof {
                lemma_models_push(exprs@, atom);
            }
            exprs.push(atom);
            *state = ScanState::Start;
            Ok(())
        },
        Err(e) => Err(e),
    }
}

/// Reads the source text `code` into its top-level expressions, in order.
/// Lists nest through an explicit stack, so the depth of nesting costs heap
/// space, not call stack.
pub fn read(code: &str) -> (r: Result<Vec<SymbolicExpr>, ReadError>)
    ensures
        read_view(r) == read_text(code@),
{
    let mut accum = String::new();
    let mut exprs: Vec<SymbolicExpr> = Vec::new();
    let mut stack: Vec<Vec<SymbolicExpr>> = Vec::new();
    let mut state = ScanState::Start;
    proof {
        assert(code@.take(0) =~= Seq::<char>::empty());
        assert(models(exprs@) =~= Seq::<Sexp>::empty());
        assert(stack@.map_values(|v: Vec<SymbolicExpr>| models(v@)) =~= Seq::<Seq<Sexp>>::empty());
        assert(abstract_state(state, accum@, exprs@, stack@) == initial());
    }
    for c in it: code.chars()
        invariant
            it.seq() == code@,
            run_from(initial(), code@.take(it.index() as int)) == Ok::<ReadState, Fault>(
                abstract_state(state, accum@, exprs@, stack@),
            ),
    {
        let ghost k = it.index() as int;
        let ghost before = abstract_state(state, accum@, exprs@, stack@);
        proof {
            assert(code@.take(k + 1).drop_last() =~= code@.take(k));
            assert(code@.take(k + 1).last() == c);
        }
        assert(run_from(initial(), code@.take(k + 1)) == step(before, c));
        if is_space_char(c) {
            if let Err(e) = end_atom(&mut state, &mut accum, &mut exprs, &stack) {
                proof {
                    lemma_error_persists(initial(), code@, k + 1);
                }
                return Err(e);
            }
        } else if c == '(' {
            if let Err(e) = end_atom(&mut state, &mut accum, &mut exprs, &stack) {
                proof {
                    lemma_error_persists(initial(), code@, k + 1);
                }
                return Err(e);
            }
            let ghost mid = stack@;
            let ghost current = models(exprs@);
            stack.push(exprs);
            exprs = Vec::new();
            proof {
                assert(stack@.map_values(|v: Vec<SymbolicExpr>| models(v@)) =~= mid.map_values(
                    |v: Vec<SymbolicExpr>| models(v@),
                ).push(current));
                assert(models(exprs@) =~= Seq::<Sexp>::empty());
            }
        } else if c == ')' {
            if let Err(e) = end_atom(&mut state, &mut accum, &mut exprs, &stack) {
                proof {
                    lemma_error_persists(initial(), code@, k + 1);
                }
                return Err(e);
            }
            let ghost mid = stack@;
            match stack.pop() {
                Some(mut parent) => {
                    proof {
                        assert(stack@.map_values(|v: Vec<SymbolicExpr>| models(v@)) =~= mid.map_values(
                            |v: Vec<SymbolicExpr>| models(v@),
                        ).drop_last());
                        lemma_models_push(parent@, SymbolicExpr::ListExpr(exprs));
                    }
                    parent.push(SymbolicExpr::ListExpr(exprs));
                    exprs = parent;
                },
                None => {
                    proof {
                        lemma_error_persists(initial(), code@, k + 1);
                    }
                    return Err(ReadError::UnmatchedClose);
                },
            }
        } else {
            let digit = is_digit_char(c);
            match state {
                ScanState::Start => {
                    state = if digit {
                        ScanState::Integer
                    } else {
                        ScanState::Symbol
                    };
                },
                ScanState::Symbol => {},
                ScanState::Integer => {
                    if !digit {
                        if c == '.' {
                            state = ScanState::IncompleteFloating;
                        } else {
                            proof {
                                lemma_error_persists(initial(), code@, k + 1);
                            }
                            return Err(ReadError::InvalidNumber);
                        }
                    }
                },
                ScanState::IncompleteFloating | ScanState::Floating => {
                    if digit {
                        state = ScanState::Floating;
                    } else {
                        proof {
                            lemma_error_persists(initial(), code@, k + 1);
                        }
                        return Err(ReadError::InvalidNumber);
                    }
                },
            }
            push_char(&mut accum, c);
        }
    }
    proof {
        assert(code@.take(code@.len() as int) =~= code@);
    }
    end_atom(&mut state, &mut accum, &mut exprs, &stack)?;
    if stack.len() == 0 {
        Ok(exprs)
    } else {
        Err(ReadError::UnmatchedOpen)
    }
}

} // verus!
