//! Properties of reading and printing, proved over the model.
use vstd::prelude::*;

use crate::error::Fault;
use crate::expr::{is_atom_char, is_decimal, is_symbol_text, wf_all, wf_sexp, Sexp};
use crate::numeral::lemma_decimal_is_float;
use crate::printer::{print_sexp, print_seq};
use crate::reader::{flush, initial, read_text, run_from, step, ReadState, ScanState};
use crate::text::{is_digit, is_space};

verus! {

/// Reading `a` then `b` is reading `a + b`.
pub proof fn lemma_run_concat(p: ReadState, a: Seq<char>, b: Seq<char>)
    ensures
        run_from(p, a + b) == match run_from(p, a) {
            Ok(q) => run_from(q, b),
            Err(f) => Err(f),
        },
    decreases b.len(),
{
    if b.len() == 0 {
        assert(a + b =~= a);
    } else {
        assert((a + b).drop_last() =~= a + b.drop_last());
        assert((a + b).last() == b.last());
        lemma_run_concat(p, a, b.drop_last());
    }
}

/// Reading a single character.
pub proof fn lemma_run_one(p: ReadState, c: char)
    ensures
        run_from(p, seq![c]) == step(p, c),
{
    assert(seq![c].drop_last() =~= Seq::<char>::empty());
    assert(seq![c].last() == c);
    assert(run_from(p, Seq::<char>::empty()) == Ok::<ReadState, Fault>(p));
}

/// Reading `a` and then one more character.
pub proof fn lemma_run_push(p: ReadState, a: Seq<char>, c: char)
    ensures
        run_from(p, a.push(c)) == match run_from(p, a) {
            Ok(q) => step(q, c),
            Err(f) => Err(f),
        },
{
    assert(a.push(c).drop_last() =~= a);
}

/// A symbol's text, read from between tokens, leaves the reader inside that
/// symbol.
proof fn lemma_scan_symbol(p: ReadState, t: Seq<char>)
    requires
        p.scan == ScanState::Start,
        p.accum.len() == 0,
        is_symbol_text(t),
    ensures
        run_from(p, t) == Ok::<ReadState, Fault>(
            ReadState { scan: ScanState::Symbol, accum: t, ..p },
        ),
    decreases t.len(),
{
    if t.len() == 1 {
        lemma_run_one(p, t[0]);
        assert(t =~= seq![t[0]]);
        assert(p.accum.push(t[0]) =~= t);
    } else {
        let u = t.drop_last();
        assert(is_symbol_text(u)) by {
            assert forall|i: int| 0 <= i < u.len() implies is_atom_char(
                #[trigger] u[i],
            ) by {
                assert(u[i] == t[i]);
            }
        }
        lemma_scan_symbol(p, u);
        lemma_run_push(p, u, t.last());
        assert(is_atom_char(t[t.len() - 1]));
        assert(u.push(t.last()) =~= t);
    }
}

/// A prefix of a decimal number: digits, and at most one `.` that is not
/// first.
spec fn is_number_prefix(u: Seq<char>) -> bool {
    &&& u.len() > 0
    &&& is_digit(u[0])
    &&& forall|i: int| 0 <= i < u.len() ==> is_digit(#[trigger] u[i]) || u[i] == '.'
    &&& forall|i: int, j: int|
        0 <= i < j < u.len() && #[trigger] u[i] == '.' ==> #[trigger] u[j] != '.'
}

/// The tokenizer state after a prefix of a decimal number.
spec fn number_scan(u: Seq<char>) -> ScanState {
    if u.last() == '.' {
        ScanState::IncompleteFloating
    } else if exists|i: int| 0 <= i < u.len() && u[i] == '.' {
        ScanState::Floating
    } else {
        ScanState::Integer
    }
}

/// A prefix of a number, read from between tokens, leaves the reader inside
/// that number.
proof fn lemma_scan_number(p: ReadState, u: Seq<char>)
    requires
        p.scan == ScanState::Start,
        p.accum.len() == 0,
        is_number_prefix(u),
    ensures
        run_from(p, u) == Ok::<ReadState, Fault>(
            ReadState { scan: number_scan(u), accum: u, ..p },
        ),
    decreases u.len(),
{
    if u.len() == 1 {
        lemma_run_one(p, u[0]);
        assert(u =~= seq![u[0]]);
        assert(p.accum.push(u[0]) =~= u);
        assert(!(exists|i: int| 0 <= i < u.len() && u[i] == '.'));
    } else {
        let v = u.drop_last();
        let c = u.last();
        assert(is_number_prefix(v)) by {
            assert forall|i: int| 0 <= i < v.len() implies is_digit(#[trigger] v[i]) || v[i]
                == '.' by {
                assert(v[i] == u[i]);
            }
            assert forall|i: int, j: int|
                0 <= i < j < v.len() && #[trigger] v[i] == '.' implies #[trigger] v[j] != '.' by {
                assert(v[i] == u[i] && v[j] == u[j]);
            }
        }
        lemma_number_prefix_last(v);
        lemma_scan_number(p, v);
        lemma_run_push(p, v, c);
        assert(v.push(c) =~= u);
        assert(is_digit(u[u.len() - 1]) || u[u.len() - 1] == '.');
        let has_v = exists|i: int| 0 <= i < v.len() && v[i] == '.';
        let has_u = exists|i: int| 0 <= i < u.len() && u[i] == '.';
        if has_v {
            let i = choose|i: int| 0 <= i < v.len() && v[i] == '.';
            assert(u[i] == '.');
            if c == '.' {
                assert(u[i] == '.' && u[u.len() - 1] == '.');
            }
        } else {
            if c == '.' {
                assert(u[u.len() - 1] == '.');
                assert(v.last() == v[v.len() - 1]);
            } else {
                assert(!has_u) by {
                    if has_u {
                        let i = choose|i: int| 0 <= i < u.len() && u[i] == '.';
                        if i < v.len() {
                            assert(v[i] == '.');
                        }
                    }
                }
            }
        }
    }
}

/// The last character of a number prefix is a digit or a `.`.
proof fn lemma_number_prefix_last(v: Seq<char>)
    requires
        is_number_prefix(v),
    ensures
        is_digit(v.last()) || v.last() == '.',
{
    assert(v.last() == v[v.len() - 1]);
}

/// The canonical text of a well-formed expression, read from between
/// tokens, adds that expression to the current list once the pending atom
/// is ended.
pub proof fn lemma_read_one(p: ReadState, t: Sexp)
    requires
        p.scan == ScanState::Start,
        p.accum.len() == 0,
        wf_sexp(t),
    ensures
        run_from(p, print_sexp(t)) is Ok,
        flush(run_from(p, print_sexp(t))->Ok_0) == Ok::<ReadState, Fault>(
            ReadState { items: p.items.push(t), ..p },
        ),
    decreases t,
{
    match t {
        Sexp::Num(u) => {
            lemma_scan_number(p, u);
            lemma_decimal_is_float(u);
            assert(u.last() == u[u.len() - 1]);
            assert(number_scan(u) != ScanState::IncompleteFloating);
            assert(p.accum =~= Seq::<char>::empty());
        },
        Sexp::Sym(u) => {
            lemma_scan_symbol(p, u);
            assert(p.accum =~= Seq::<char>::empty());
        },
        Sexp::List(xs) => {
            let a = seq!['('];
            let b = print_seq(xs);
            lemma_run_one(p, '(');
            let p1 = ReadState { items: Seq::empty(), open: p.open.push(p.items), ..p };
            assert(run_from(p, a) == Ok::<ReadState, Fault>(p1));
            lemma_read_many(p1, xs);
            lemma_run_concat(p, a, b);
            lemma_run_push(p, a + b, ')');
            assert(print_sexp(t) =~= (a + b).push(')'));
            assert(Seq::<Sexp>::empty() + xs =~= xs);
            assert(p1.open.last() == p.items);
            assert(p1.open.drop_last() =~= p.open);
        },
    }
}

/// The canonical text of well-formed expressions, read from between tokens,
/// adds them to the current list once the pending atom is ended.
pub proof fn lemma_read_many(p: ReadState, xs: Seq<Sexp>)
    requires
        p.scan == ScanState::Start,
        p.accum.len() == 0,
        wf_all(xs),
    ensures
        run_from(p, print_seq(xs)) is Ok,
        flush(run_from(p, print_seq(xs))->Ok_0) == Ok::<ReadState, Fault>(
            ReadState { items: p.items + xs, ..p },
        ),
    decreases xs,
{
    if xs.len() == 0 {
        assert(p.items + xs =~= p.items);
    } else if xs.len() == 1 {
        lemma_read_one(p, xs[0]);
        assert(p.items.push(xs[0]) =~= p.items + xs);
    } else {
        let init = xs.subrange(0, xs.len() - 1);
        let last = xs[xs.len() - 1];
        assert(wf_all(init)) by {
            assert forall|i: int| 0 <= i < init.len() implies wf_sexp(#[trigger] init[i]) by {
                assert(init[i] == xs[i]);
            }
        }
        lemma_read_many(p, init);
        lemma_run_push(p, print_seq(init), ' ');
        let p1 = ReadState { items: p.items + init, ..p };
        assert(run_from(p, print_seq(init).push(' ')) == Ok::<ReadState, Fault>(p1));
        lemma_read_one(p1, last);
        lemma_run_concat(p, print_seq(init).push(' '), print_sexp(last));
        assert(print_seq(xs) =~= print_seq(init).push(' ') + print_sexp(last));
        assert((p.items + init).push(last) =~= p.items + xs);
    }
}

/// Printing well-formed expressions in canonical form and reading the text
/// gives the same expressions back.
pub proof fn lemma_round_trip(ts: Seq<Sexp>)
    requires
        wf_all(ts),
    ensures
        read_text(print_seq(ts)) == Ok::<Seq<Sexp>, Fault>(ts),
{
    lemma_read_many(initial(), ts);
    assert(Seq::<Sexp>::empty() + ts =~= ts);
}

/// What holds of the reader's state after any input that it accepted so
/// far: every finished expression is well formed, and so is the pending
/// symbol.
spec fn state_wf(p: ReadState) -> bool {
    &&& wf_all(p.items)
    &&& forall|i: int| 0 <= i < p.open.len() ==> wf_all(#[trigger] p.open[i])
    &&& p.scan == ScanState::Start ==> p.accum.len() == 0
    &&& p.scan == ScanState::Symbol ==> is_symbol_text(p.accum)
    &&& p.scan == ScanState::Integer ==> is_decimal(p.accum) && forall|i: int|
        0 <= i < p.accum.len() ==> #[trigger] p.accum[i] != '.'
    &&& p.scan == ScanState::IncompleteFloating ==> is_number_prefix(p.accum)
    &&& p.scan == ScanState::Floating ==> is_decimal(p.accum)
}

/// An error of the current state is never a malformed number.
spec fn not_number_format<T>(r: Result<T, Fault>) -> bool {
    !(r matches Err(Fault::NumberFormat(_)))
}

proof fn lemma_flush_wf(p: ReadState)
    requires
        state_wf(p),
        flush(p) is Ok,
    ensures
        state_wf(flush(p)->Ok_0),
        (flush(p)->Ok_0).scan == ScanState::Start,
{
    if p.scan != ScanState::Start {
        let q = flush(p)->Ok_0;
        assert forall|i: int| 0 <= i < q.items.len() implies wf_sexp(#[trigger] q.items[i]) by {
            if i < p.items.len() {
                assert(q.items[i] == p.items[i]);
            }
        }
    }
}

proof fn lemma_step_wf(p: ReadState, c: char)
    requires
        state_wf(p),
        step(p, c) is Ok,
    ensures
        state_wf(step(p, c)->Ok_0),
{
    if is_space(c) {
        lemma_flush_wf(p);
    } else if c == '(' {
        lemma_flush_wf(p);
        let q = flush(p)->Ok_0;
        let r = step(p, c)->Ok_0;
        assert forall|i: int| 0 <= i < r.open.len() implies wf_all(#[trigger] r.open[i]) by {
            if i < q.open.len() {
                assert(r.open[i] == q.open[i]);
            }
        }
    } else if c == ')' {
        lemma_flush_wf(p);
        let q = flush(p)->Ok_0;
        let r = step(p, c)->Ok_0;
        let parent = q.open.last();
        assert(wf_all(parent)) by {
            assert(parent == q.open[q.open.len() - 1]);
        }
        assert(wf_sexp(Sexp::List(q.items)));
        assert forall|i: int| 0 <= i < r.items.len() implies wf_sexp(#[trigger] r.items[i]) by {
            if i < parent.len() {
                assert(r.items[i] == parent[i]);
            }
        }
        assert forall|i: int| 0 <= i < r.open.len() implies wf_all(#[trigger] r.open[i]) by {
            assert(r.open[i] == q.open[i]);
        }
    } else {
        let r = step(p, c)->Ok_0;
        if r.scan == ScanState::Symbol {
            assert forall|i: int| 0 <= i < r.accum.len() implies is_atom_char(
                #[trigger] r.accum[i],
            ) by {
                if i < p.accum.len() {
                    assert(r.accum[i] == p.accum[i]);
                }
            }
            if p.scan == ScanState::Start {
                assert(r.accum[0] == c);
            } else {
                assert(r.accum[0] == p.accum[0]);
            }
        } else if r.scan != ScanState::Start {
            let n = p.accum.len();
            assert(r.accum == p.accum.push(c));
            assert(r.accum[n as int] == c);
            assert(r.accum.last() == c);
            assert forall|i: int| 0 <= i < n implies r.accum[i] == p.accum[i] by {}
            if p.scan == ScanState::Start {
                assert(p.accum.len() == 0);
            } else {
                assert(r.accum[0] == p.accum[0]);
                assert(p.accum.last() == p.accum[n - 1]);
            }
            if r.scan == ScanState::IncompleteFloating {
                assert forall|i: int, j: int|
                    0 <= i < j < r.accum.len() && #[trigger] r.accum[i] == '.' implies #[trigger] r.accum[j]
                        != '.' by {
                    if j < n {
                        assert(p.accum[i] == '.');
                    }
                }
            }
        }
    }
}

proof fn lemma_step_fault(p: ReadState, c: char)
    requires
        state_wf(p),
    ensures
        not_number_format(flush(p)),
        not_number_format(step(p, c)),
{
    if p.scan == ScanState::Integer || p.scan == ScanState::Floating {
        lemma_decimal_is_float(p.accum);
    }
}

proof fn lemma_run_fault(s: Seq<char>)
    ensures
        not_number_format(run_from(initial(), s)),
    decreases s.len(),
{
    if s.len() > 0 {
        lemma_run_fault(s.drop_last());
        lemma_run_wf(s.drop_last());
        if run_from(initial(), s.drop_last()) is Ok {
            lemma_step_fault(run_from(initial(), s.drop_last())->Ok_0, s.last());
        }
    }
}

/// Reading never fails with a malformed number: the tokenizer lets only
/// well-formed decimal text reach the atom finalizer.
pub proof fn lemma_no_number_format(s: Seq<char>)
    ensures
        !(read_text(s) matches Err(Fault::NumberFormat(_))),
{
    lemma_run_fault(s);
    lemma_run_wf(s);
    if run_from(initial(), s) is Ok {
        lemma_step_fault(run_from(initial(), s)->Ok_0, ' ');
    }
}

proof fn lemma_run_wf(s: Seq<char>)
    ensures
        run_from(initial(), s) is Ok ==> state_wf(run_from(initial(), s)->Ok_0),
    decreases s.len(),
{
    if s.len() > 0 {
        lemma_run_wf(s.drop_last());
        if run_from(initial(), s.drop_last()) is Ok && run_from(initial(), s) is Ok {
            lemma_step_wf(run_from(initial(), s.drop_last())->Ok_0, s.last());
        }
    }
}

/// Every expression that reading produces is well formed.
pub proof fn lemma_read_wf(s: Seq<char>)
    requires
        read_text(s) is Ok,
    ensures
        wf_all(read_text(s)->Ok_0),
{
    lemma_run_wf(s);
    lemma_flush_wf(run_from(initial(), s)->Ok_0);
}

/// Printing what was read in canonical form and reading that text again
/// gives the same expressions.
pub proof fn lemma_reread(s: Seq<char>)
    requires
        read_text(s) is Ok,
    ensures
        read_text(print_seq(read_text(s)->Ok_0)) == read_text(s),
{
    lemma_read_wf(s);
    lemma_round_trip(read_text(s)->Ok_0);
}

/// A run of whitespace, read from any state, has the effect of one space.
proof fn lemma_spaces(p: ReadState, w: Seq<char>)
    requires
        w.len() > 0,
        forall|i: int| 0 <= i < w.len() ==> is_space(#[trigger] w[i]),
    ensures
        run_from(p, w) == step(p, ' '),
    decreases w.len(),
{
    if w.len() == 1 {
        lemma_run_one(p, w[0]);
        assert(w =~= seq![w[0]]);
    } else {
        let v = w.drop_last();
        assert forall|i: int| 0 <= i < v.len() implies is_space(#[trigger] v[i]) by {
            assert(v[i] == w[i]);
        }
        lemma_spaces(p, v);
        lemma_run_push(p, v, w.last());
        assert(v.push(w.last()) =~= w);
        assert(is_space(w[w.len() - 1]));
    }
}

/// Any run of whitespace between two pieces of text reads as a single space.
pub proof fn lemma_whitespace_run(a: Seq<char>, w: Seq<char>, b: Seq<char>)
    requires
        w.len() > 0,
        forall|i: int| 0 <= i < w.len() ==> is_space(#[trigger] w[i]),
    ensures
        read_text(a + w + b) == read_text(a + seq![' '] + b),
{
    lemma_run_concat(initial(), a + w, b);
    lemma_run_concat(initial(), a + seq![' '], b);
    lemma_run_concat(initial(), a, w);
    lemma_run_concat(initial(), a, seq![' ']);
    if run_from(initial(), a) is Ok {
        let q = run_from(initial(), a)->Ok_0;
        lemma_spaces(q, w);
        lemma_run_one(q, ' ');
    }
}

/// Digits, optionally with one `.` that has digits on both sides, read as
/// exactly one number with that decimal text.
pub proof fn lemma_read_number(t: Seq<char>)
    requires
        is_decimal(t),
    ensures
        read_text(t) == Ok::<Seq<Sexp>, Fault>(seq![Sexp::Num(t)]),
{
    let ts = seq![Sexp::Num(t)];
    assert(ts.len() == 1 && ts[0] == Sexp::Num(t));
    assert(print_sexp(Sexp::Num(t)) == t);
    assert(print_seq(ts) == print_sexp(ts[0]));
    assert(wf_sexp(ts[0]));
    lemma_round_trip(ts);
    assert(print_seq(ts) == t);
}

/// A single run of characters other than whitespace and parentheses that
/// does not begin with a digit reads as exactly one symbol with that text.
pub proof fn lemma_read_symbol(t: Seq<char>)
    requires
        is_symbol_text(t),
    ensures
        read_text(t) == Ok::<Seq<Sexp>, Fault>(seq![Sexp::Sym(t)]),
{
    let ts = seq![Sexp::Sym(t)];
    assert(ts.len() == 1 && ts[0] == Sexp::Sym(t));
    assert(print_sexp(Sexp::Sym(t)) == t);
    assert(print_seq(ts) == print_sexp(ts[0]));
    assert(wf_sexp(ts[0]));
    lemma_round_trip(ts);
    assert(print_seq(ts) == t);
}

} // verus!
