//! The grammar engine: a recursive-descent parser over the characters of
//! the source that recovers locally from each error and collects them all.

use std::ops::Range;
use vstd::prelude::*;

use crate::ast::{duplicate_errors, variant_resolves, Expr, ExprVariant, Label, Scope, ScopeError, Symbol};
use crate::natural::{digits_value, BigNat, Natural};
use crate::scan::{
    digits_end, int_end, is_symbol_char, is_white_space, scan_digits, scan_int, scan_symbol, skip_whitespace,
    sym_end, ws_end,
};

verus! {

#[derive(Debug, PartialEq, Eq)]
pub enum ErrorVariant {
    /// The character found where another was expected; `None` at the end
    /// of the input or of a construct.
    UnexpectedChar(Option<char>),
    /// A label that repeats one declared earlier in its scope, whose span
    /// this holds.
    DuplicateLabel(Range<usize>),
    /// A label path that cannot be followed; the span covers the part of
    /// the path from the first label that failed.
    InvalidPath,
    /// What follows the top-level scope, reported once.
    TrailingGarbage,
}

/// The grammar rules that an error can pass through.
#[derive(Debug, Clone, Copy, PartialEq, Eq)]
pub enum ErrorLabel {
    Natural,
    Symbol,
    Label,
    LabelledExpr,
    Path,
    Reference,
    SExpr,
}

/// A diagnostic: where, what, and the rules it passed through, innermost
/// first.
#[derive(Debug, PartialEq, Eq)]
pub struct Error {
    pub span: Range<usize>,
    pub variant: ErrorVariant,
    pub trace: Vec<ErrorLabel>,
}

impl Error {
    pub fn unexpected_char(span: Range<usize>, found: char) -> (r: Error)
        ensures
            r.span == span,
            r.variant == ErrorVariant::UnexpectedChar(Some(found)),
            r.trace@ == Seq::<ErrorLabel>::empty(),
    {
        Error { span, variant: ErrorVariant::UnexpectedChar(Some(found)), trace: Vec::new() }
    }

    pub fn unexpected_end(pos: usize) -> (r: Error)
        ensures
            r.span == (Range { start: pos, end: pos }),
            r.variant == ErrorVariant::UnexpectedChar(None),
            r.trace@ == Seq::<ErrorLabel>::empty(),
    {
        Error { span: pos..pos, variant: ErrorVariant::UnexpectedChar(None), trace: Vec::new() }
    }

    pub fn duplicate_label(span: Range<usize>, other_span: Range<usize>) -> (r: Error)
        ensures
            r.span == span,
            r.variant == ErrorVariant::DuplicateLabel(other_span),
            r.trace@ == Seq::<ErrorLabel>::empty(),
    {
        Error { span, variant: ErrorVariant::DuplicateLabel(other_span), trace: Vec::new() }
    }

    pub fn invalid_path(span: Range<usize>) -> (r: Error)
        ensures
            r.span == span,
            r.variant == ErrorVariant::InvalidPath,
            r.trace@ == Seq::<ErrorLabel>::empty(),
    {
        Error { span, variant: ErrorVariant::InvalidPath, trace: Vec::new() }
    }

    pub fn trailing_garbage(span: Range<usize>) -> (r: Error)
        ensures
            r.span == span,
            r.variant == ErrorVariant::TrailingGarbage,
            r.trace@ == Seq::<ErrorLabel>::empty(),
    {
        Error { span, variant: ErrorVariant::TrailingGarbage, trace: Vec::new() }
    }

    /// The same error, one rule further out.
    pub fn with_label(self, label: ErrorLabel) -> (r: Error)
        ensures
            r.span == self.span,
            r.variant == self.variant,
            r.trace@ == self.trace@.push(label),
    {
        let mut e = self;
        e.trace.push(label);
        e
    }
}


/// `s[p]` is `c`.
pub open spec fn at(s: Seq<char>, p: int, c: char) -> bool {
    0 <= p < s.len() && s[p] == c
}

/// The radix that a `b`, `o` or `x` after a leading `0` selects; 0 for
/// any other character.
pub open spec fn radix_of(c: char) -> nat {
    if c == 'b' {
        2
    } else if c == 'o' {
        8
    } else if c == 'x' {
        16
    } else {
        0
    }
}

/// The prefixed literal at `p` (`0b`, `0o` or `0x` and a run of at least
/// one digit of that radix) is there.
pub open spec fn prefixed_at(s: Seq<char>, p: int) -> bool {
    &&& at(s, p, '0')
    &&& p + 1 < s.len()
    &&& radix_of(s[p + 1]) != 0
    &&& digits_end(s, p + 2, radix_of(s[p + 1])) > p + 2
}

/// End of the natural literal at `p`, if one starts there.
pub open spec fn natural_end(s: Seq<char>, p: int) -> Option<int> {
    if prefixed_at(s, p) {
        Some(digits_end(s, p + 2, radix_of(s[p + 1])))
    } else if int_end(s, p, 10) > p {
        Some(int_end(s, p, 10))
    } else {
        None
    }
}

/// Value of the natural literal at `p`.
pub open spec fn natural_value(s: Seq<char>, p: int) -> nat {
    if prefixed_at(s, p) {
        let radix = radix_of(s[p + 1]);
        digits_value(s.subrange(p + 2, digits_end(s, p + 2, radix)), radix)
    } else {
        digits_value(s.subrange(p, int_end(s, p, 10)), 10)
    }
}

/// The label at `p` (a colon) has a name.
pub open spec fn label_named(s: Seq<char>, p: int) -> bool {
    sym_end(s, p + 1) > p + 1
}

/// End of the label at `p`: after its name, or just after the colon when
/// the name is missing.
pub open spec fn label_end(s: Seq<char>, p: int) -> int {
    if label_named(s, p) {
        sym_end(s, p + 1)
    } else {
        p + 1
    }
}

/// End of the labels chained directly from `p`.
pub open spec fn path_end(s: Seq<char>, p: int) -> int
    decreases s.len() - p,
{
    if at(s, p, ':') && label_end(s, p) <= s.len() {
        path_end(s, label_end(s, p))
    } else {
        p
    }
}

/// Every label chained directly from `p` has a name.
pub open spec fn path_named(s: Seq<char>, p: int) -> bool
    decreases s.len() - p,
{
    if at(s, p, ':') && label_end(s, p) <= s.len() {
        label_named(s, p) && path_named(s, label_end(s, p))
    } else {
        true
    }
}

/// End of the labels at `p` (a colon), each separated from the next by
/// optional whitespace; the whitespace after the last is not included.
pub open spec fn labels_end(s: Seq<char>, p: int) -> int
    decreases s.len() - p,
{
    let e = label_end(s, p);
    let q = ws_end(s, e);
    if at(s, q, ':') && p < q {
        labels_end(s, q)
    } else {
        e
    }
}

/// Every label of the run at `p` has a name.
pub open spec fn labels_named(s: Seq<char>, p: int) -> bool
    decreases s.len() - p,
{
    let e = label_end(s, p);
    let q = ws_end(s, e);
    label_named(s, p) && if at(s, q, ':') && p < q {
        labels_named(s, q)
    } else {
        true
    }
}

/// End of the atom at `p` (a parenthesized scope, a natural or a symbol),
/// if one starts there.
pub open spec fn atom_end(s: Seq<char>, p: int) -> Option<int>
    decreases s.len() - p, 1nat,
{
    if at(s, p, '(') {
        Some(sexpr_end(s, p))
    } else if natural_end(s, p) is Some {
        natural_end(s, p)
    } else if sym_end(s, p) > p {
        Some(sym_end(s, p))
    } else {
        None
    }
}

/// End of the atom at `p` and the labels chained to it.
pub open spec fn reference_end(s: Seq<char>, p: int) -> Option<int>
    decreases s.len() - p, 2nat,
{
    match atom_end(s, p) {
        Some(e) => Some(path_end(s, e)),
        None => None,
    }
}

/// End of the parenthesized scope at `p`: after its `)`, or where its
/// scope stopped when the `)` is missing.
pub open spec fn sexpr_end(s: Seq<char>, p: int) -> int
    decreases s.len() - p, 0nat,
{
    if 0 <= p < s.len() {
        let q = scope_end(s, p + 1);
        if at(s, q, ')') {
            q + 1
        } else {
            q
        }
    } else {
        p
    }
}

/// End of the expression at `p`, if one starts there: labels, optional
/// whitespace and a reference (the reference may be missing), or a
/// reference alone.
pub open spec fn expr_end(s: Seq<char>, p: int) -> Option<int>
    decreases s.len() - p, 3nat,
{
    if at(s, p, ':') {
        let q = ws_end(s, labels_end(s, p));
        if p < q <= s.len() {
            match reference_end(s, q) {
                Some(e) => Some(e),
                None => Some(q),
            }
        } else {
            Some(q)
        }
    } else {
        reference_end(s, p)
    }
}

/// End of the expressions that follow one ending at `p`, each after
/// whitespace.
pub open spec fn items_end(s: Seq<char>, p: int) -> int
    decreases s.len() - p, 4nat,
{
    let q = ws_end(s, p);
    if p < q <= s.len() {
        match expr_end(s, q) {
            Some(e) => if p < e <= s.len() {
                items_end(s, e)
            } else {
                p
            },
            None => p,
        }
    } else {
        p
    }
}

/// End of the scope at `p`: optional whitespace, expressions separated by
/// whitespace, optional whitespace.
pub open spec fn scope_end(s: Seq<char>, p: int) -> int
    decreases s.len() - p, 5nat,
{
    let q = ws_end(s, p);
    if p <= q <= s.len() {
        match expr_end(s, q) {
            Some(e) => if q < e <= s.len() {
                ws_end(s, items_end(s, e))
            } else {
                q
            },
            None => q,
        }
    } else {
        q
    }
}

/// At `p` stands a natural or a symbol with no label chained to it.
pub open spec fn simple_atom(s: Seq<char>, p: int) -> bool {
    &&& !at(s, p, '(')
    &&& match natural_end(s, p) {
        Some(ne) => path_end(s, ne) == ne,
        None => sym_end(s, p) > p && path_end(s, sym_end(s, p)) == sym_end(s, p),
    }
}

/// Where the atom at `p` ends, for a natural or a symbol.
pub open spec fn simple_end(s: Seq<char>, p: int) -> int {
    match natural_end(s, p) {
        Some(ne) => ne,
        None => sym_end(s, p),
    }
}

/// Starts of the expressions that follow one ending at `p`, each after
/// whitespace.
pub open spec fn items_starts(s: Seq<char>, p: int) -> Seq<int>
    decreases s.len() - p,
{
    let q = ws_end(s, p);
    if p < q <= s.len() {
        match expr_end(s, q) {
            Some(e) => if p < e <= s.len() {
                seq![q] + items_starts(s, e)
            } else {
                seq![]
            },
            None => seq![],
        }
    } else {
        seq![]
    }
}

/// Starts of the expressions of the scope at `p`.
pub open spec fn scope_starts(s: Seq<char>, p: int) -> Seq<int> {
    let q = ws_end(s, p);
    if p <= q <= s.len() {
        match expr_end(s, q) {
            Some(e) => if q < e <= s.len() {
                seq![q] + items_starts(s, e)
            } else {
                seq![]
            },
            None => seq![],
        }
    } else {
        seq![]
    }
}

/// Each of `starts` is a natural or a symbol, unlabelled and with no path.
pub open spec fn all_simple(s: Seq<char>, starts: Seq<int>) -> bool {
    forall|k: int|
        0 <= k < starts.len() ==> !at(s, starts[k], ':') && simple_atom(s, #[trigger] starts[k])
}

/// `exprs` are the atoms at `starts`, one for one and in order: each the
/// natural or symbol written there, unlabelled, over its own span.
pub open spec fn atoms_as(s: Seq<char>, starts: Seq<int>, exprs: Seq<Expr>) -> bool {
    &&& exprs.len() == starts.len()
    &&& forall|k: int|
        0 <= k < starts.len() ==> {
            let q = starts[k];
            let e = simple_end(s, q);
            &&& atom_content(s, q, Some(#[trigger] exprs[k]), e)
            &&& exprs[k].span == (Range { start: q as usize, end: e as usize })
            &&& exprs[k].labels@.len() == 0
        }
}

/// The expressions after one ending at `p` start after `p`, inside `s`.
proof fn lemma_items_starts_bounds(s: Seq<char>, p: int)
    ensures
        forall|k: int| 0 <= k < items_starts(s, p).len() ==> p < #[trigger] items_starts(s, p)[k] <= s.len(),
    decreases s.len() - p,
{
    let q = ws_end(s, p);
    if p < q <= s.len() {
        if let Some(e) = expr_end(s, q) {
            if p < e <= s.len() {
                lemma_items_starts_bounds(s, e);
                lemma_ws_end_after(s, e);
                let t = items_starts(s, e);
                assert forall|k: int| 0 <= k < items_starts(s, p).len() implies p < #[trigger] items_starts(
                    s,
                    p,
                )[k] <= s.len() by {
                    if k > 0 {
                        assert(items_starts(s, p)[k] == t[k - 1]);
                    }
                }
            }
        }
    }
}

/// The expressions of the scope at `p` start inside `s`, from `p` on.
proof fn lemma_scope_starts_bounds(s: Seq<char>, p: int)
    requires
        0 <= p <= s.len(),
    ensures
        forall|k: int| 0 <= k < scope_starts(s, p).len() ==> p <= #[trigger] scope_starts(s, p)[k] <= s.len(),
{
    let q = ws_end(s, p);
    if p <= q <= s.len() {
        if let Some(e) = expr_end(s, q) {
            if q < e <= s.len() {
                lemma_items_starts_bounds(s, e);
                let t = items_starts(s, e);
                assert forall|k: int| 0 <= k < scope_starts(s, p).len() implies p <= #[trigger] scope_starts(
                    s,
                    p,
                )[k] <= s.len() by {
                    if k > 0 {
                        assert(scope_starts(s, p)[k] == t[k - 1]);
                    }
                }
            }
        }
    }
}

/// Skipping whitespace never moves back.
proof fn lemma_ws_end_after(s: Seq<char>, p: int)
    ensures
        ws_end(s, p) >= p,
    decreases s.len() - p,
{
    if 0 <= p < s.len() && is_white_space(s[p]) {
        lemma_ws_end_after(s, p + 1);
    }
}

/// A natural or symbol expression ends where its atom does.
proof fn lemma_simple_expr_end(s: Seq<char>, q: int)
    requires
        !at(s, q, ':'),
        simple_atom(s, q),
    ensures
        expr_end(s, q) == Some(simple_end(s, q)),
{
    assert(expr_end(s, q) == reference_end(s, q));
    match natural_end(s, q) {
        Some(ne) => {
            assert(atom_end(s, q) == Some(ne));
        },
        None => {
            assert(atom_end(s, q) == Some(sym_end(s, q)));
        },
    }
}

/// Expressions without labels have no duplicate labels.
proof fn lemma_no_labels_no_duplicates(exprs: Seq<Expr>)
    requires
        forall|k: int| 0 <= k < exprs.len() ==> #[trigger] exprs[k].labels@.len() == 0,
    ensures
        duplicate_errors(exprs) == Seq::<ScopeError>::empty(),
    decreases exprs.len(),
{
    if exprs.len() > 0 {
        let prev = exprs.drop_last();
        assert forall|k: int| 0 <= k < prev.len() implies #[trigger] prev[k].labels@.len() == 0 by {
            assert(prev[k] == exprs[k]);
        }
        lemma_no_labels_no_duplicates(prev);
        assert(exprs.last().labels@.len() == 0);
    }
}

/// `s` is one symbol: symbol characters only, not starting with a decimal
/// digit (which would make it a natural).
pub open spec fn lone_symbol(s: Seq<char>) -> bool {
    &&& s.len() > 0
    &&& forall|i: int| 0 <= i < s.len() ==> is_symbol_char(#[trigger] s[i])
    &&& !crate::natural::is_digit_of(s[0], 10)
}

/// The expressions after `p` end no earlier than `p`.
proof fn lemma_items_end_after(s: Seq<char>, p: int)
    ensures
        items_end(s, p) >= p,
    decreases s.len() - p,
{
    let q = ws_end(s, p);
    if p < q <= s.len() {
        if let Some(e) = expr_end(s, q) {
            if p < e <= s.len() {
                lemma_items_end_after(s, e);
            }
        }
    }
}

/// A run of symbol characters to the end of `s` is one symbol.
proof fn lemma_symbol_run(s: Seq<char>, p: int)
    requires
        0 <= p <= s.len(),
        forall|i: int| p <= i < s.len() ==> is_symbol_char(#[trigger] s[i]),
    ensures
        sym_end(s, p) == s.len(),
    decreases s.len() - p,
{
    if p < s.len() {
        lemma_symbol_run(s, p + 1);
    }
}

/// `top` holds one expression: the symbol `s`, unlabelled, spanning all of
/// `s`.
pub open spec fn holds_symbol(top: Scope, s: Seq<char>) -> bool {
    &&& top@.len() == 1
    &&& top@[0].span == (Range { start: 0, end: s.len() as usize })
    &&& top@[0].labels@.len() == 0
    &&& top@[0].variant matches ExprVariant::Symbol(Symbol::Unresolved(name))
    &&& name@ == s
}

/// `e` reports what stands at `p` in `s` where something else was
/// wanted: the character, or the end of the input.
pub open spec fn unexpected_at(s: Seq<char>, p: int, e: Error) -> bool {
    if 0 <= p < s.len() {
        e.span == (Range { start: p as usize, end: (p + 1) as usize }) && e.variant
            == ErrorVariant::UnexpectedChar(Some(s[p]))
    } else {
        e.span == (Range { start: p as usize, end: p as usize }) && e.variant
            == ErrorVariant::UnexpectedChar(None)
    }
}

/// `l` is the label written at `l.span` in `s`: a colon and its whole
/// name.
pub open spec fn written_label(s: Seq<char>, l: Label) -> bool {
    &&& l.span.start < l.span.end <= s.len()
    &&& s[l.span.start as int] == ':'
    &&& l.span.end == sym_end(s, l.span.start + 1)
    &&& l.name@ == s.subrange(l.span.start + 1, l.span.end as int)
}

/// Every label of each of `exprs` is written in `s`.
pub open spec fn labels_written(s: Seq<char>, exprs: Seq<Expr>) -> bool {
    forall|i: int, j: int|
        0 <= i < exprs.len() && 0 <= j < exprs[i].labels@.len() ==> written_label(
            s,
            #[trigger] exprs[i].labels@[j],
        )
}

/// What a reference at `p` that ends at `end` holds when its atom is a
/// natural or a symbol: without a path, that natural or that symbol; a
/// natural with a path, nothing.
pub open spec fn atom_content(s: Seq<char>, p: int, x: Option<Expr>, end: int) -> bool {
    !at(s, p, '(') ==> match natural_end(s, p) {
        Some(ne) => if end == ne {
            &&& x matches Some(e)
            &&& e.variant matches ExprVariant::Natural(n)
            &&& n.value() == natural_value(s, p)
            &&& crate::natural::is_canonical(n)
        } else {
            x is None
        },
        None => end == sym_end(s, p) ==> {
            &&& x matches Some(e)
            &&& e.variant matches ExprVariant::Symbol(Symbol::Unresolved(name))
            &&& name@ == s.subrange(p, end)
        },
    }
}

/// `errors[from..]` report `found`, one for one and in order, with empty
/// traces.
pub open spec fn reports(errors: Seq<Error>, from: int, found: Seq<ScopeError>) -> bool {
    &&& 0 <= from
    &&& errors.len() == from + found.len()
    &&& forall|k: int|
        0 <= k < found.len() ==> {
            let e = #[trigger] errors[from + k];
            &&& e.trace@.len() == 0
            &&& match found[k] {
                ScopeError::DuplicateLabel(span, other) => e.span == span && e.variant
                    == ErrorVariant::DuplicateLabel(other),
            }
        }
}

/// Where and what an error is, its trace aside.
pub open spec fn kind_of(e: Error) -> (Range<usize>, ErrorVariant) {
    (e.span, e.variant)
}

/// The kinds of `errors`, in order.
pub open spec fn kinds(errors: Seq<Error>) -> Seq<(Range<usize>, ErrorVariant)> {
    errors.map_values(|e: Error| kind_of(e))
}

/// The kinds of the errors that `after` adds to `before`.
pub open spec fn added(before: Seq<Error>, after: Seq<Error>) -> Seq<(Range<usize>, ErrorVariant)> {
    kinds(after).skip(before.len() as int)
}

/// The kind of the error for what stands at `p` where something else was
/// wanted.
pub open spec fn unexpected_kind(s: Seq<char>, p: int) -> (Range<usize>, ErrorVariant) {
    if 0 <= p < s.len() {
        (Range { start: p as usize, end: (p + 1) as usize }, ErrorVariant::UnexpectedChar(Some(s[p])))
    } else {
        (Range { start: p as usize, end: p as usize }, ErrorVariant::UnexpectedChar(None))
    }
}

/// Positions of the labels chained directly from `p`.
pub open spec fn chain(s: Seq<char>, p: int) -> Seq<int>
    decreases s.len() - p,
{
    if at(s, p, ':') && label_end(s, p) <= s.len() {
        seq![p] + chain(s, label_end(s, p))
    } else {
        seq![]
    }
}

/// Positions of the labels of the run at `p` (a colon), each separated
/// from the next by optional whitespace.
pub open spec fn run(s: Seq<char>, p: int) -> Seq<int>
    decreases s.len() - p,
{
    let q = ws_end(s, label_end(s, p));
    if at(s, q, ':') && p < q {
        seq![p] + run(s, q)
    } else {
        seq![p]
    }
}

/// Each label at `ps` has a name.
pub open spec fn all_named(s: Seq<char>, ps: Seq<int>) -> bool {
    forall|k: int| 0 <= k < ps.len() ==> label_named(s, #[trigger] ps[k])
}

/// The errors of the labels at `ps` that lack a name.
pub open spec fn nameless_kinds(s: Seq<char>, ps: Seq<int>) -> Seq<(Range<usize>, ErrorVariant)>
    decreases ps.len(),
{
    if ps.len() == 0 {
        seq![]
    } else {
        nameless_kinds(s, ps.drop_last()) + if label_named(s, ps.last()) {
            seq![]
        } else {
            seq![unexpected_kind(s, ps.last() + 1)]
        }
    }
}

/// `ls` are the labels written at `ps`.
pub open spec fn labels_at(s: Seq<char>, ps: Seq<int>, ls: Seq<Label>) -> bool {
    &&& ls.len() == ps.len()
    &&& forall|k: int|
        0 <= k < ps.len() ==> (#[trigger] ls[k]).span.start == ps[k] && written_label(s, ls[k])
}

/// The expressions that are there among `xs`, in order.
pub open spec fn somes(xs: Seq<Option<Expr>>) -> Seq<Expr>
    decreases xs.len(),
{
    if xs.len() == 0 {
        seq![]
    } else {
        somes(xs.drop_last()) + match xs.last() {
            Some(e) => seq![e],
            None => seq![],
        }
    }
}

/// `es` one after another.
pub open spec fn joined(es: Seq<Seq<(Range<usize>, ErrorVariant)>>) -> Seq<(Range<usize>, ErrorVariant)>
    decreases es.len(),
{
    if es.len() == 0 {
        seq![]
    } else {
        joined(es.drop_last()) + es.last()
    }
}

/// The kind of the error that reports a duplicate label.
pub open spec fn dup_kind(e: ScopeError) -> (Range<usize>, ErrorVariant) {
    match e {
        ScopeError::DuplicateLabel(span, other) => (span, ErrorVariant::DuplicateLabel(other)),
    }
}

/// The atom at `p`, ending at `ae`, is the variant `bv`, its errors `be`.
pub open spec fn base_is(
    s: Seq<char>,
    p: int,
    ae: int,
    bv: ExprVariant,
    be: Seq<(Range<usize>, ErrorVariant)>,
) -> bool
    decreases s.len() - p, 1nat,
{
    if at(s, p, '(') {
        &&& bv matches ExprVariant::SExpr(sc)
        &&& sexpr_is(s, p, sc, be)
    } else if natural_end(s, p) is Some {
        &&& be.len() == 0
        &&& bv matches ExprVariant::Natural(n)
        &&& n.value() == natural_value(s, p)
        &&& crate::natural::is_canonical(n)
    } else {
        &&& be.len() == 0
        &&& bv matches ExprVariant::Symbol(Symbol::Unresolved(name))
        &&& name@ == s.subrange(p, ae)
    }
}

/// The reference at `p` yields `x` with errors `errs`, given the atom's
/// variant `bv`, its errors `be`, and the path labels `ls`: an incomplete
/// path drops it; an empty path keeps the atom; else the path is folded in
/// (`variant_resolves`), and a path that cannot be followed drops it with
/// an `InvalidPath` over the rest of the path.
pub open spec fn reference_parts(
    s: Seq<char>,
    p: int,
    x: Option<Expr>,
    errs: Seq<(Range<usize>, ErrorVariant)>,
    bv: ExprVariant,
    be: Seq<(Range<usize>, ErrorVariant)>,
    ls: Seq<Label>,
) -> bool
    decreases s.len() - p, 2nat,
{
    match atom_end(s, p) {
        None => false,
        Some(ae) => {
            let ch = chain(s, ae);
            let span = Range { start: p as usize, end: ae as usize };
            &&& 0 <= p < ae <= s.len()
            &&& base_is(s, p, ae, bv, be)
            &&& if !all_named(s, ch) {
                x is None && errs == be + nameless_kinds(s, ch)
            } else {
                &&& labels_at(s, ch, ls)
                &&& if ch.len() == 0 {
                    x matches Some(e) && e.variant == bv && e.span == span && e.labels@.len() == 0
                        && errs == be
                } else {
                    match x {
                        Some(e) => {
                            &&& variant_resolves(bv, span, ls, 0, Ok(e.variant))
                            &&& e.span == (Range { start: p as usize, end: path_end(s, ae) as usize })
                            &&& e.labels@.len() == 0
                            &&& errs == be
                        },
                        None => exists|sp: Range<usize>|
                            #[trigger] variant_resolves(bv, span, ls, 0, Err(sp)) && errs == be
                                + seq![(sp, ErrorVariant::InvalidPath)],
                    }
                }
            }
        },
    }
}

/// The reference at `p` yields `x` with errors `errs`.
pub open spec fn reference_is(
    s: Seq<char>,
    p: int,
    x: Option<Expr>,
    errs: Seq<(Range<usize>, ErrorVariant)>,
) -> bool
    decreases s.len() - p, 3nat,
{
    exists|bv: ExprVariant, be: Seq<(Range<usize>, ErrorVariant)>, ls: Seq<Label>|
        #[trigger] witness_triple(bv, be, ls) && reference_parts(s, p, x, errs, bv, be, ls)
}

/// The parenthesized scope at `p` is `sc`, with errors `errs`: those of its
/// scope, then a missing `)`.
pub open spec fn sexpr_is(s: Seq<char>, p: int, sc: Scope, errs: Seq<(Range<usize>, ErrorVariant)>) -> bool
    decreases s.len() - p, 0nat,
{
    if 0 <= p < s.len() {
        let q = scope_end(s, p + 1);
        let closing = if at(s, q, ')') {
            Seq::<(Range<usize>, ErrorVariant)>::empty()
        } else {
            seq![unexpected_kind(s, q)]
        };
        &&& errs.len() >= closing.len()
        &&& errs.skip(errs.len() - closing.len()) == closing
        &&& scope_is(s, p + 1, sc@, errs.take(errs.len() - closing.len()))
    } else {
        false
    }
}

/// Marks a choice of sub-results.
pub open spec fn witness_pair<A, B>(a: A, b: B) -> bool {
    true
}

/// Marks a choice of sub-results.
pub open spec fn witness_triple<A, B, C>(a: A, b: B, c: C) -> bool {
    true
}

/// The labelled expression at `p` yields `x` with errors `errs`, given
/// what the reference after its labels yields (`x0`, `e0`).
pub open spec fn expr_parts(
    s: Seq<char>,
    p: int,
    x: Option<Expr>,
    errs: Seq<(Range<usize>, ErrorVariant)>,
    x0: Option<Expr>,
    e0: Seq<(Range<usize>, ErrorVariant)>,
) -> bool
    decreases s.len() - p, 4nat,
{
    let ps = run(s, p);
    let q = ws_end(s, labels_end(s, p));
    let lerrs = nameless_kinds(s, ps);
    let named = all_named(s, ps);
    &&& p < q <= s.len()
    &&& if reference_end(s, q) is None {
        &&& x is None
        &&& errs == lerrs + if named {
            seq![(Range { start: q as usize, end: q as usize }, ErrorVariant::UnexpectedChar(None))]
        } else {
            Seq::<(Range<usize>, ErrorVariant)>::empty()
        }
    } else {
        &&& reference_is(s, q, x0, e0)
        &&& errs == lerrs + e0
        &&& match x0 {
            None => x is None,
            Some(y) => x matches Some(e) && e.variant == y.variant && e.span == y.span && if named {
                labels_at(s, ps, e.labels@)
            } else {
                e.labels@.len() == 0
            },
        }
    }
}

/// The expression at `p` yields `x` (nothing when it was dropped) with
/// errors `errs`.
pub open spec fn expr_is(s: Seq<char>, p: int, x: Option<Expr>, errs: Seq<(Range<usize>, ErrorVariant)>) -> bool
    decreases s.len() - p, 5nat,
{
    if at(s, p, ':') {
        exists|x0: Option<Expr>, e0: Seq<(Range<usize>, ErrorVariant)>|
            #[trigger] witness_pair(x0, e0) && expr_parts(s, p, x, errs, x0, e0)
    } else {
        reference_is(s, p, x, errs)
    }
}

/// The scope at `p` is `exprs` with errors `errs`, given what each of its
/// expressions yields (`xs`, `es`): the expressions that are there, and
/// their errors followed by the scope's duplicate labels.
pub open spec fn scope_parts(
    s: Seq<char>,
    p: int,
    exprs: Seq<Expr>,
    errs: Seq<(Range<usize>, ErrorVariant)>,
    xs: Seq<Option<Expr>>,
    es: Seq<Seq<(Range<usize>, ErrorVariant)>>,
) -> bool
    decreases s.len() - p, 6nat,
{
    let st = scope_starts(s, p);
    &&& xs.len() == st.len()
    &&& es.len() == st.len()
    &&& forall|k: int|
        0 <= k < st.len() ==> p <= st[k] <= s.len() && expr_is(s, st[k], #[trigger] xs[k], es[k])
    &&& exprs == somes(xs)
    &&& errs == joined(es) + duplicate_errors(exprs).map_values(|e: ScopeError| dup_kind(e))
}

/// The scope at `p` is `exprs` with errors `errs`.
pub open spec fn scope_is(s: Seq<char>, p: int, exprs: Seq<Expr>, errs: Seq<(Range<usize>, ErrorVariant)>) -> bool
    decreases s.len() - p, 7nat,
{
    exists|xs: Seq<Option<Expr>>, es: Seq<Seq<(Range<usize>, ErrorVariant)>>|
        #[trigger] witness_pair(xs, es) && scope_parts(s, p, exprs, errs, xs, es)
}

/// `after` holds `before` and then possibly more errors.
pub open spec fn extends(before: Seq<Error>, after: Seq<Error>) -> bool {
    &&& before.len() <= after.len()
    &&& forall|i: int| 0 <= i < before.len() ==> #[trigger] after[i] == before[i]
}

/// `after` extends `before` with errors other than trailing garbage.
pub open spec fn grows(before: Seq<Error>, after: Seq<Error>) -> bool {
    &&& extends(before, after)
    &&& forall|i: int|
        before.len() <= i < after.len() ==> #[trigger] after[i].variant
            != ErrorVariant::TrailingGarbage
}

/// Labels that all have a name report nothing.
proof fn lemma_named_no_errors(s: Seq<char>, ps: Seq<int>)
    requires
        all_named(s, ps),
    ensures
        nameless_kinds(s, ps) == Seq::<(Range<usize>, ErrorVariant)>::empty(),
    decreases ps.len(),
{
    if ps.len() > 0 {
        assert(label_named(s, ps[ps.len() - 1]));
        assert forall|k: int| 0 <= k < ps.drop_last().len() implies label_named(
            s,
            #[trigger] ps.drop_last()[k],
        ) by {
            assert(ps.drop_last()[k] == ps[k]);
        }
        lemma_named_no_errors(s, ps.drop_last());
    }
}

/// The kinds added over two steps are those of the first, then the second.
proof fn lemma_added(a: Seq<Error>, b: Seq<Error>, c: Seq<Error>)
    requires
        extends(a, b),
        extends(b, c),
    ensures
        added(a, c) == added(a, b) + added(b, c),
        added(a, a) == Seq::<(Range<usize>, ErrorVariant)>::empty(),
{
    assert(added(a, c) =~= added(a, b) + added(b, c));
    assert(added(a, a) =~= Seq::<(Range<usize>, ErrorVariant)>::empty());
}

/// Adding rule names to traces from `from` on keeps what `grows` says.
proof fn lemma_traced_grows(before: Seq<Error>, mid: Seq<Error>, after: Seq<Error>, from: int)
    requires
        grows(before, mid),
        before.len() == from,
        after.len() == mid.len(),
        forall|k: int| 0 <= k < from ==> #[trigger] after[k] == mid[k],
        forall|k: int| #![trigger after[k]] from <= k < after.len() ==> after[k].variant == mid[k].variant,
    ensures
        grows(before, after),
{
    assert forall|k: int| from <= k < after.len() implies #[trigger] after[k].variant
        != ErrorVariant::TrailingGarbage by {
        assert(after[k].variant == mid[k].variant);
    }
}

/// Appends an error for each duplicate label in `found`, in order.
fn report_duplicates(errors: &mut Vec<Error>, found: &Vec<ScopeError>)
    ensures
        grows(old(errors)@, final(errors)@),
        reports(final(errors)@, old(errors)@.len() as int, found@),
        added(old(errors)@, final(errors)@) == found@.map_values(|e: ScopeError| dup_kind(e)),
{
    let ghost from = errors@.len() as int;
    let mut k: usize = 0;
    while k < found.len()
        invariant
            grows(old(errors)@, errors@),
            from == old(errors)@.len(),
            k <= found@.len(),
            reports(errors@, from, found@.take(k as int)),
        decreases found@.len() - k,
    {
        let e = match &found[k] {
            ScopeError::DuplicateLabel(span, other) => Error::duplicate_label(
                span.start..span.end,
                other.start..other.end,
            ),
        };
        errors.push(e);
        proof {
            assert forall|j: int| 0 <= j < k + 1 implies {
                let e = #[trigger] errors@[from + j];
                &&& e.trace@.len() == 0
                &&& match found@.take(k + 1)[j] {
                    ScopeError::DuplicateLabel(span, other) => e.span == span && e.variant
                        == ErrorVariant::DuplicateLabel(other),
                }
            } by {
                assert(found@.take(k + 1)[j] == found@[j]);
                if j < k {
                    assert(found@.take(k as int)[j] == found@[j]);
                }
            }
        }
        k += 1;
    }
    proof {
        assert(found@.take(k as int) == found@);
        let dk = found@.map_values(|e: ScopeError| dup_kind(e));
        let errs = added(old(errors)@, errors@);
        assert forall|t: int| 0 <= t < errs.len() implies #[trigger] errs[t] == dk[t] by {
            assert(errs[t] == kind_of(errors@[from + t]));
            match found@[t] {
                ScopeError::DuplicateLabel(a, b) => {
                    assert(errors@[from + t].span == a);
                }
            }
        }
        assert(errs =~= dk);
    }
}

/// Appends `label` to the trace of every error from index `from` on.
fn trace_since(errors: &mut Vec<Error>, from: usize, label: ErrorLabel)
    requires
        from <= old(errors)@.len(),
    ensures
        from == old(errors)@.len() ==> final(errors)@ == old(errors)@,
        final(errors)@.len() == old(errors)@.len(),
        kinds(final(errors)@) == kinds(old(errors)@),
        forall|k: int| 0 <= k < from ==> #[trigger] final(errors)@[k] == old(errors)@[k],
        forall|k: int|
            #![trigger final(errors)@[k]]
            from <= k < final(errors)@.len() ==> {
                &&& final(errors)@[k].span == old(errors)@[k].span
                &&& final(errors)@[k].variant == old(errors)@[k].variant
                &&& final(errors)@[k].trace@ == old(errors)@[k].trace@.push(label)
            },
{
    let ghost start = errors@;
    let mut tail = errors.split_off(from);
    let ghost tail0 = tail@;
    let mut done: Vec<Error> = Vec::new();
    while tail.len() > 0
        invariant
            errors@ == start.take(from as int),
            done@.len() + tail@.len() == tail0.len(),
            tail@ == tail0.skip(done@.len() as int),
            forall|k: int|
                0 <= k < done@.len() ==> {
                    &&& #[trigger] done@[k].span == tail0[k].span
                    &&& done@[k].variant == tail0[k].variant
                    &&& done@[k].trace@ == tail0[k].trace@.push(label)
                },
        decreases tail@.len(),
    {
        let e = tail.remove(0);
        done.push(e.with_label(label));
        proof {
            assert(tail@ == tail0.skip(done@.len() as int));
        }
    }
    let ghost d = done@;
    errors.append(&mut done);
    proof {
        assert(errors@ == start.take(from as int) + d);
        if from == start.len() {
            assert(errors@ == start);
        }
        assert forall|k: int| 0 <= k < errors@.len() implies #[trigger] kinds(errors@)[k] == kinds(
            start,
        )[k] by {
            if k < from {
                assert(errors@[k] == start.take(from as int)[k]);
            } else {
                assert(errors@[k] == d[k - from]);
                assert(tail0[k - from] == start[k]);
            }
        }
        assert(kinds(errors@) =~= kinds(start));
        assert(tail0 == start.skip(from as int));
        assert forall|k: int| 0 <= k < from implies #[trigger] errors@[k] == start[k] by {
            assert(errors@[k] == start.take(from as int)[k]);
        }
        assert forall|k: int|
            #![trigger errors@[k]]
            from <= k < errors@.len() implies errors@[k].span == start[k].span
                && errors@[k].variant == start[k].variant && errors@[k].trace@ == start[k].trace@.push(label) by {
            assert(errors@[k] == d[k - from]);
            assert(tail0[k - from] == start[k]);
        }
    }
}

/// Characters of the source together with the source text.
struct Source<'a> {
    text: &'a str,
    chars: Vec<char>,
}

impl<'a> Source<'a> {
    spec fn wf(&self) -> bool {
        &&& self.chars@ == self.text@
        &&& self.chars@.len() <= usize::MAX
    }

    fn new(text: &'a str) -> (r: Source<'a>)
        ensures
            r.wf(),
            r.text == text,
    {
        let mut chars: Vec<char> = Vec::new();
        for c in it: text.chars()
            invariant
                it.seq() == text@,
                chars@ == it.seq().take(it.index() as int),
        {
            chars.push(c);
        }
        assert(chars@ =~= text@);
        let count = chars.len();
        assert(count as int == text@.len());
        Source { text, chars }
    }

    fn at(&self, pos: usize, c: char) -> (r: bool)
        ensures
            r == (pos < self.chars@.len() && self.chars@[pos as int] == c),
    {
        pos < self.chars.len() && self.chars[pos] == c
    }

    /// `s[from..to]` as text.
    fn slice(&self, from: usize, to: usize) -> (r: &'a str)
        requires
            self.wf(),
            from <= to <= self.chars@.len(),
        ensures
            r@ == self.chars@.subrange(from as int, to as int),
    {
        self.text.substring_char(from, to)
    }

    /// The error for what stands at `pos` when something else was wanted.
    fn unexpected(&self, pos: usize) -> (r: Error)
        requires
            pos <= self.chars@.len(),
        ensures
            r.trace@.len() == 0,
            pos < self.chars@.len() ==> r.span == (Range { start: pos, end: (pos + 1) as usize })
                && r.variant == ErrorVariant::UnexpectedChar(Some(self.chars@[pos as int])),
            pos == self.chars@.len() ==> r.span == (Range { start: pos, end: pos }) && r.variant
                == ErrorVariant::UnexpectedChar(None),
    {
        if pos < self.chars.len() {
            Error::unexpected_char(pos..pos + 1, self.chars[pos])
        } else {
            Error::unexpected_end(pos)
        }
    }
}


impl<'a> Source<'a> {
    /// A natural literal at `pos`: `0b`, `0o` or `0x` and digits of that
    /// radix, else a decimal integer.
    fn natural(&self, pos: usize) -> (r: Option<(Natural, usize)>)
        requires
            self.wf(),
            pos <= self.chars@.len(),
        ensures
            match r {
                Some((n, end)) => {
                    &&& natural_end(self.chars@, pos as int) == Some(end as int)
                    &&& pos < end <= self.chars@.len()
                    &&& n.value() == natural_value(self.chars@, pos as int)
                    &&& crate::natural::is_canonical(n)
                },
                None => natural_end(self.chars@, pos as int) is None,
            },
    {
        if self.at(pos, '0') && pos + 1 < self.chars.len() {
            let radix: u32 = if self.at(pos + 1, 'b') {
                2
            } else if self.at(pos + 1, 'o') {
                8
            } else if self.at(pos + 1, 'x') {
                16
            } else {
                0
            };
            assert(radix as nat == radix_of(self.chars@[pos + 1]));
            if radix != 0 {
                let end = scan_digits(&self.chars, pos + 2, radix);
                if end > pos + 2 {
                    let digits = self.slice(pos + 2, end);
                    assert forall|i: int| 0 <= i < digits@.len() implies crate::natural::is_digit_of(
                        #[trigger] digits@[i],
                        radix as nat,
                    ) by {
                        assert(digits@[i] == self.chars@[pos + 2 + i]);
                    }
                    return Some((Natural::from(BigNat::from_digits(digits, radix)), end));
                }
            }
        }
        let end = scan_int(&self.chars, pos, 10);
        if end > pos {
            let digits = self.slice(pos, end);
            assert forall|i: int| 0 <= i < digits@.len() implies crate::natural::is_digit_of(
                #[trigger] digits@[i],
                10,
            ) by {
                assert(digits@[i] == self.chars@[pos + i]);
            }
            Some((Natural::from(BigNat::from_digits(digits, 10)), end))
        } else {
            None
        }
    }

    /// A label at `pos`, which holds `:`. Without a symbol after the colon
    /// the error is recorded and only the colon is consumed.
    fn label(&self, pos: usize, errors: &mut Vec<Error>) -> (r: (Option<Label>, usize))
        requires
            self.wf(),
            pos < self.chars@.len(),
            self.chars@[pos as int] == ':',
        ensures
            grows(old(errors)@, final(errors)@),
            pos < r.1 <= self.chars@.len(),
            r.1 == label_end(self.chars@, pos as int),
            r.0 is Some <==> label_named(self.chars@, pos as int),
            r.0 matches Some(l) ==> l.span == (Range { start: pos, end: r.1 }) && l.name@
                == self.chars@.subrange(pos + 1, r.1 as int) && written_label(self.chars@, l),
            label_named(self.chars@, pos as int) ==> final(errors)@ == old(errors)@,
            added(old(errors)@, final(errors)@) == if label_named(self.chars@, pos as int) {
                Seq::<(Range<usize>, ErrorVariant)>::empty()
            } else {
                seq![unexpected_kind(self.chars@, pos + 1)]
            },
            !label_named(self.chars@, pos as int) ==> {
                &&& final(errors)@.len() == old(errors)@.len() + 1
                &&& unexpected_at(self.chars@, pos + 1, final(errors)@.last())
                &&& final(errors)@.last().trace@ == seq![ErrorLabel::Symbol, ErrorLabel::Label]
            },
    {
        let end = scan_symbol(&self.chars, pos + 1);
        if end > pos + 1 {
            assert(added(old(errors)@, errors@) =~= Seq::<(Range<usize>, ErrorVariant)>::empty());
            (Some(Label::new(pos..end, self.slice(pos + 1, end))), end)
        } else {
            errors.push(self.unexpected(pos + 1).with_label(ErrorLabel::Symbol).with_label(ErrorLabel::Label));
            assert(added(old(errors)@, errors@) =~= seq![unexpected_kind(self.chars@, pos + 1)]);
            (None, pos + 1)
        }
    }

    /// The labels chained directly at `pos`; `None` when one of them lacks
    /// its name.
    fn path(&self, pos: usize, errors: &mut Vec<Error>) -> (r: (Option<Vec<Label>>, usize))
        requires
            self.wf(),
            pos <= self.chars@.len(),
        ensures
            grows(old(errors)@, final(errors)@),
            pos <= r.1 <= self.chars@.len(),
            r.1 == path_end(self.chars@, pos as int),
            r.0 is Some <==> path_named(self.chars@, pos as int),
            r.0 matches Some(ls) ==> (ls@.len() == 0 <==> r.1 == pos) && (ls@.len() > 0
                ==> ls@.last().span.end == r.1),
            r.1 == pos ==> (r.0 matches Some(ls) && ls@.len() == 0),
            r.1 == pos ==> final(errors)@ == old(errors)@,
            r.0 is Some <==> all_named(self.chars@, chain(self.chars@, pos as int)),
            r.0 matches Some(ls) ==> labels_at(self.chars@, chain(self.chars@, pos as int), ls@),
            added(old(errors)@, final(errors)@) == nameless_kinds(
                self.chars@,
                chain(self.chars@, pos as int),
            ),
    {
        let mark = errors.len();
        let mut labels: Vec<Label> = Vec::new();
        let mut complete = true;
        let mut p = pos;
        let ghost done: Seq<int> = seq![];
        proof {
            lemma_added(old(errors)@, old(errors)@, old(errors)@);
        }
        while self.at(p, ':')
            invariant
                self.wf(),
                done + chain(self.chars@, p as int) == chain(self.chars@, pos as int),
                complete == all_named(self.chars@, done),
                complete ==> labels_at(self.chars@, done, labels@),
                added(old(errors)@, errors@) == nameless_kinds(self.chars@, done),
                pos <= p <= self.chars@.len(),
                path_end(self.chars@, p as int) == path_end(self.chars@, pos as int),
                path_named(self.chars@, pos as int) == (complete && path_named(self.chars@, p as int)),
                complete ==> (labels@.len() == 0 <==> p == pos),
                p == pos ==> complete && labels@.len() == 0 && errors@ == old(errors)@,
                complete && labels@.len() > 0 ==> labels@.last().span.end == p,
                mark == old(errors)@.len(),
                grows(old(errors)@, errors@),
            decreases self.chars@.len() - p,
        {
            let ghost before = errors@;
            let (label, q) = self.label(p, errors);
            proof {
                lemma_added(old(errors)@, before, errors@);
                let d2 = done.push(p as int);
                assert(d2.drop_last() == done);
                assert(done + chain(self.chars@, p as int) == d2 + chain(self.chars@, q as int));
                assert forall|k: int| 0 <= k < d2.len() implies label_named(self.chars@, #[trigger] d2[k])
                    == (k < done.len() ==> label_named(self.chars@, done[k])) || true by {}
            }
            match label {
                Some(l) => labels.push(l),
                None => complete = false,
            }
            proof {
                let d2 = done.push(p as int);
                if complete {
                    assert forall|k: int| 0 <= k < d2.len() implies label_named(self.chars@, #[trigger] d2[k]) by {
                        if k < done.len() {
                            assert(d2[k] == done[k]);
                        }
                    }
                    assert forall|k: int| 0 <= k < d2.len() implies (#[trigger] labels@[k]).span.start
                        == d2[k] && written_label(self.chars@, labels@[k]) by {
                        if k < done.len() {
                            assert(d2[k] == done[k]);
                        }
                    }
                } else {
                    if label_named(self.chars@, p as int) {
                        let k = choose|k: int| 0 <= k < done.len() && !label_named(self.chars@, #[trigger] done[k]);
                        assert(d2[k] == done[k]);
                    }
                    assert(!label_named(self.chars@, d2[d2.len() - 1]) || !all_named(self.chars@, done));
                    if !all_named(self.chars@, done) {
                        let k = choose|k: int| 0 <= k < done.len() && !label_named(self.chars@, #[trigger] done[k]);
                        assert(d2[k] == done[k]);
                    }
                }
                done = d2;
            }
            p = q;
        }
        let ghost mid = errors@;
        trace_since(errors, mark, ErrorLabel::Path);
        proof {
            assert(done + Seq::<int>::empty() == done);
            assert(added(old(errors)@, errors@) == added(old(errors)@, mid));
        }
        proof {
            lemma_traced_grows(old(errors)@, mid, errors@, mark as int);
        }
        (if complete { Some(labels) } else { None }, p)
    }
}


impl<'a> Source<'a> {
    /// An atom at `pos` (a parenthesized scope, a natural or a symbol) with
    /// its trailing path folded in. `None`, with nothing consumed or
    /// recorded, when no atom starts there; `Some((None, _))` when the path
    /// was incomplete or could not be followed.
    #[verifier::rlimit(100)]
    #[verifier::spinoff_prover]
    fn reference(&self, pos: usize, errors: &mut Vec<Error>) -> (r: Option<(Option<Expr>, usize)>)
        requires
            self.wf(),
            pos <= self.chars@.len(),
        ensures
            grows(old(errors)@, final(errors)@),
            r is None ==> final(errors)@ == old(errors)@,
            r matches Some((_, end)) ==> pos < end <= self.chars@.len(),
            r is None <==> reference_end(self.chars@, pos as int) is None,
            r matches Some((_, end)) ==> reference_end(self.chars@, pos as int) == Some(end as int),
            r matches Some((Some(e), end)) ==> e.span == (Range { start: pos, end }) && e.labels@.len()
                == 0,
            r matches Some((x, end)) ==> atom_content(self.chars@, pos as int, x, end as int),
            simple_atom(self.chars@, pos as int) ==> final(errors)@ == old(errors)@,
            r matches Some((x, _)) ==> reference_is(
                self.chars@,
                pos as int,
                x,
                added(old(errors)@, final(errors)@),
            ),
        decreases self.chars@.len() - pos, 2nat,
    {
        let mark = errors.len();
        proof {
            lemma_added(old(errors)@, old(errors)@, old(errors)@);
        }
        let (variant, end) = if self.at(pos, '(') {
            let (scope, end) = self.sexpr(pos, errors);
            (ExprVariant::SExpr(scope), end)
        } else {
            match self.natural(pos) {
                Some((n, end)) => (ExprVariant::Natural(n), end),
                None => {
                    let end = scan_symbol(&self.chars, pos);
                    if end == pos {
                        return None;
                    }
                    (ExprVariant::Symbol(Symbol::unresolved(self.slice(pos, end))), end)
                },
            }
        };
        let ghost s = self.chars@;
        let ghost bv = variant;
        let ghost be = added(old(errors)@, errors@);
        let ghost e1 = errors@;
        proof {
            assert(atom_end(s, pos as int) == Some(end as int));
            assert(base_is(s, pos as int, end as int, bv, be));
        }
        let base = Expr { labels: Vec::new(), span: pos..end, variant };
        let (path, after) = self.path(end, errors);
        let ghost e2 = errors@;
        let ghost ls: Seq<Label> = match path {
            Some(ref p) => p@,
            None => seq![],
        };
        proof {
            lemma_added(old(errors)@, e1, e2);
            if all_named(s, chain(s, end as int)) {
                lemma_named_no_errors(s, chain(s, end as int));
            }
        }
        let ghost mut bad: Range<usize> = Range { start: 0, end: 0 };
        let result = match path {
            None => None,
            Some(path) => match base.with_path(path) {
                Ok(e) => Some(e),
                Err(span) => {
                    proof {
                        bad = Range { start: span.start, end: span.end };
                        assert(bad == span);
                    }
                    errors.push(Error::invalid_path(span));
                    proof {
                        assert(added(e2, errors@) =~= seq![(span, ErrorVariant::InvalidPath)]);
                        lemma_added(old(errors)@, e2, errors@);
                        assert(variant_resolves(bv, Range { start: pos, end }, ls, 0, Err(span)));
                    }
                    None
                },
            },
        };
        let ghost mid = errors@;
        trace_since(errors, mark, ErrorLabel::Reference);
        proof {
            lemma_traced_grows(old(errors)@, mid, errors@, mark as int);
            assert(added(old(errors)@, errors@) == added(old(errors)@, mid));
            let ch = chain(s, end as int);
            let errs = added(old(errors)@, errors@);
            if !all_named(s, ch) {
                assert(result is None);
                assert(errs == be + nameless_kinds(s, ch));
            } else {
                assert(labels_at(s, ch, ls));
                assert(nameless_kinds(s, ch) == Seq::<(Range<usize>, ErrorVariant)>::empty());
            }
            if all_named(s, ch) && ch.len() > 0 && result is None {
                assert(be + Seq::<(Range<usize>, ErrorVariant)>::empty() == be);
                assert(added(old(errors)@, errors@) =~= be + seq![(bad, ErrorVariant::InvalidPath)]);
                assert(variant_resolves(bv, Range { start: pos, end }, ls, 0, Err(bad)));
            }
            assert(reference_parts(s, pos as int, result, added(old(errors)@, errors@), bv, be, ls));
            assert(witness_triple(bv, be, ls));
            assert(reference_is(s, pos as int, result, added(old(errors)@, errors@)));
        }
        Some((result, after))
    }

    /// A parenthesized scope at `pos`, which holds `(`. A missing `)` is
    /// recorded and the scope kept.
    fn sexpr(&self, pos: usize, errors: &mut Vec<Error>) -> (r: (Scope, usize))
        requires
            self.wf(),
            pos < self.chars@.len(),
            self.chars@[pos as int] == '(',
        ensures
            grows(old(errors)@, final(errors)@),
            pos < r.1 <= self.chars@.len(),
            r.1 == sexpr_end(self.chars@, pos as int),
            !at(self.chars@, scope_end(self.chars@, pos + 1), ')') ==> {
                &&& final(errors)@.len() > 0
                &&& unexpected_at(self.chars@, r.1 as int, final(errors)@.last())
                &&& final(errors)@.last().trace@ == seq![ErrorLabel::SExpr]
            },
            sexpr_is(self.chars@, pos as int, r.0, added(old(errors)@, final(errors)@)),
        decreases self.chars@.len() - pos, 0nat,
    {
        let mark = errors.len();
        let (scope, p) = self.scope(pos + 1, errors);
        let ghost e1 = errors@;
        let end = if self.at(p, ')') {
            proof {
                lemma_added(old(errors)@, e1, e1);
            }
            p + 1
        } else {
            errors.push(self.unexpected(p));
            assert(unexpected_at(self.chars@, p as int, errors@.last()));
            proof {
                assert(added(e1, errors@) =~= seq![unexpected_kind(self.chars@, p as int)]);
                lemma_added(old(errors)@, e1, errors@);
            }
            p
        };
        let ghost mid = errors@;
        trace_since(errors, mark, ErrorLabel::SExpr);
        proof {
            lemma_traced_grows(old(errors)@, mid, errors@, mark as int);
            let errs = added(old(errors)@, errors@);
            assert(errs == added(old(errors)@, mid));
            let closing = if at(self.chars@, p as int, ')') {
                Seq::<(Range<usize>, ErrorVariant)>::empty()
            } else {
                seq![unexpected_kind(self.chars@, p as int)]
            };
            assert(errs.take(errs.len() - closing.len()) =~= added(old(errors)@, e1));
            assert(errs.skip(errs.len() - closing.len()) =~= closing);
        }
        (scope, end)
    }

    /// An expression at `pos`: labels, each `:` and a name, separated by
    /// optional whitespace, then optional whitespace and a reference; or a
    /// reference alone. Labels without a reference are dropped with an
    /// `UnexpectedChar(None)`; when a label lacks its name the expression is
    /// kept without labels.
    fn expr(&self, pos: usize, errors: &mut Vec<Error>) -> (r: Option<(Option<Expr>, usize)>)
        requires
            self.wf(),
            pos <= self.chars@.len(),
        ensures
            grows(old(errors)@, final(errors)@),
            r is None ==> final(errors)@ == old(errors)@,
            r matches Some((_, end)) ==> pos < end <= self.chars@.len(),
            r is None <==> expr_end(self.chars@, pos as int) is None,
            r matches Some((_, end)) ==> expr_end(self.chars@, pos as int) == Some(end as int),
            r matches Some((Some(e), _)) ==> forall|j: int|
                0 <= j < e.labels@.len() ==> written_label(self.chars@, #[trigger] e.labels@[j]),
            r matches Some((Some(e), _)) ==> (e.labels@.len() > 0 <==> (at(self.chars@, pos as int, ':')
                && labels_named(self.chars@, pos as int))),
            !at(self.chars@, pos as int, ':') ==> match r {
                Some((x, end)) => {
                    &&& atom_content(self.chars@, pos as int, x, end as int)
                    &&& x matches Some(e) ==> e.span == (Range { start: pos, end })
                },
                None => true,
            },
            !at(self.chars@, pos as int, ':') && simple_atom(self.chars@, pos as int)
                ==> final(errors)@ == old(errors)@,
            r matches Some((x, _)) ==> expr_is(
                self.chars@,
                pos as int,
                x,
                added(old(errors)@, final(errors)@),
            ),
            at(self.chars@, pos as int, ':') && labels_named(self.chars@, pos as int)
                && reference_end(self.chars@, ws_end(self.chars@, labels_end(self.chars@, pos as int)))
                is None ==> {
                &&& r matches Some((None, _))
                &&& final(errors)@.len() > 0
                &&& final(errors)@.last().span.start == ws_end(
                    self.chars@,
                    labels_end(self.chars@, pos as int),
                )
                &&& final(errors)@.last().span.end == final(errors)@.last().span.start
                &&& final(errors)@.last().variant == ErrorVariant::UnexpectedChar(None)
                &&& final(errors)@.last().trace@ == seq![ErrorLabel::LabelledExpr]
            },
        decreases self.chars@.len() - pos, 3nat,
    {
        if !self.at(pos, ':') {
            return self.reference(pos, errors);
        }
        let ghost s = self.chars@;
        let mark = errors.len();
        let mut labels: Vec<Label> = Vec::new();
        let mut complete = true;
        let mut l = pos;
        let mut p: usize;
        let ghost mut done: Seq<int> = seq![];
        proof {
            lemma_added(old(errors)@, old(errors)@, old(errors)@);
            assert(done + run(s, pos as int) =~= run(s, pos as int));
        }
        loop
            invariant_except_break
                done + run(s, l as int) == run(s, pos as int),
            invariant
                self.wf(),
                complete == all_named(s, done),
                complete ==> labels_at(s, done, labels@),
                added(old(errors)@, errors@) == nameless_kinds(s, done),
                s == self.chars@,
                pos <= l < s.len(),
                s[l as int] == ':',
                labels_end(s, l as int) == labels_end(s, pos as int),
                labels_named(s, pos as int) == (complete && labels_named(s, l as int)),
                l != pos && complete ==> labels@.len() > 0,
                forall|j: int| 0 <= j < labels@.len() ==> written_label(s, #[trigger] labels@[j]),
                mark == old(errors)@.len(),
                grows(old(errors)@, errors@),
            ensures
                done == run(s, pos as int),
                complete == all_named(s, done),
                complete ==> labels_at(s, done, labels@),
                added(old(errors)@, errors@) == nameless_kinds(s, done),
                pos < p <= s.len(),
                p == labels_end(s, pos as int),
                labels_named(s, pos as int) == complete,
                complete ==> labels@.len() > 0,
                forall|j: int| 0 <= j < labels@.len() ==> written_label(s, #[trigger] labels@[j]),
                grows(old(errors)@, errors@),
            decreases s.len() - l,
        {
            let ghost before = errors@;
            let (label, e) = self.label(l, errors);
            proof {
                lemma_added(old(errors)@, before, errors@);
            }
            match label {
                Some(x) => labels.push(x),
                None => complete = false,
            }
            proof {
                let d2 = done.push(l as int);
                assert(d2.drop_last() == done);
                if complete {
                    assert forall|k: int| 0 <= k < d2.len() implies label_named(s, #[trigger] d2[k]) by {
                        if k < done.len() {
                            assert(d2[k] == done[k]);
                        }
                    }
                    assert forall|k: int| 0 <= k < d2.len() implies (#[trigger] labels@[k]).span.start
                        == d2[k] && written_label(s, labels@[k]) by {
                        if k < done.len() {
                            assert(d2[k] == done[k]);
                        }
                    }
                } else {
                    if all_named(s, d2) {
                        if !label_named(s, l as int) {
                            assert(d2[d2.len() - 1] == l);
                        } else {
                            let k = choose|k: int| 0 <= k < done.len() && !label_named(s, #[trigger] done[k]);
                            assert(d2[k] == done[k]);
                        }
                    }
                }
                done = d2;
            }
            let q = skip_whitespace(&self.chars, e);
            if self.at(q, ':') && l < q {
                proof {
                    assert(run(s, l as int) == seq![l as int] + run(s, q as int));
                    assert(done.drop_last() + run(s, l as int) == done + run(s, q as int));
                }
                l = q;
            } else {
                proof {
                    assert(run(s, l as int) == seq![l as int]);
                    assert(done.drop_last() + run(s, l as int) == done);
                }
                p = e;
                break;
            }
        }
        let q = skip_whitespace(&self.chars, p);
        let ghost e1 = errors@;
        let ghost mut x0: Option<Expr> = None;
        let ghost mut r0: Seq<(Range<usize>, ErrorVariant)> = seq![];
        let result = match self.reference(q, errors) {
            None => {
                if complete {
                    errors.push(Error::unexpected_end(q));
                    proof {
                        assert(added(e1, errors@) =~= seq![
                            (Range { start: q, end: q }, ErrorVariant::UnexpectedChar(None)),
                        ]);
                    }
                } else {
                    proof {
                        lemma_added(e1, e1, e1);
                    }
                }
                proof {
                    lemma_added(old(errors)@, e1, errors@);
                }
                (None, q)
            },
            Some((x, end)) => {
                proof {
                    x0 = x;
                    r0 = added(e1, errors@);
                    lemma_added(old(errors)@, e1, errors@);
                }
                match x {
                    None => (None, end),
                    Some(e) => (Some(if complete { e.with_labels(labels) } else { e }), end),
                }
            },
        };
        let ghost mid = errors@;
        trace_since(errors, mark, ErrorLabel::LabelledExpr);
        proof {
            lemma_traced_grows(old(errors)@, mid, errors@, mark as int);
            assert(added(old(errors)@, errors@) == added(old(errors)@, mid));
            assert(expr_parts(s, pos as int, result.0, added(old(errors)@, errors@), x0, r0));
            assert(witness_pair(x0, r0));
            assert(expr_is(s, pos as int, result.0, added(old(errors)@, errors@)));
        }
        Some(result)
    }

    /// A scope at `pos`: optional whitespace, expressions separated by
    /// whitespace, optional whitespace. The expressions that parsed form the
    /// scope; its duplicate labels are recorded.
    #[verifier::rlimit(100)]
    #[verifier::spinoff_prover]
    fn scope(&self, pos: usize, errors: &mut Vec<Error>) -> (r: (Scope, usize))
        requires
            self.wf(),
            pos <= self.chars@.len(),
        ensures
            grows(old(errors)@, final(errors)@),
            pos <= r.1 <= self.chars@.len(),
            r.1 == scope_end(self.chars@, pos as int),
            labels_written(self.chars@, r.0@),
            all_simple(self.chars@, scope_starts(self.chars@, pos as int)) ==> {
                &&& atoms_as(self.chars@, scope_starts(self.chars@, pos as int), r.0@)
                &&& final(errors)@ == old(errors)@
            },
            scope_is(self.chars@, pos as int, r.0@, added(old(errors)@, final(errors)@)),
            reports(
                final(errors)@,
                final(errors)@.len() - duplicate_errors(r.0@).len(),
                duplicate_errors(r.0@),
            ),
        decreases self.chars@.len() - pos, 5nat,
    {
        let ghost s = self.chars@;
        let mut exprs: Vec<Expr> = Vec::new();
        let q0 = skip_whitespace(&self.chars, pos);
        let ghost starts = scope_starts(s, pos as int);
        let ghost simple = all_simple(s, starts);
        let ghost errs0 = errors@;
        let ghost mut xs: Seq<Option<Expr>> = seq![];
        let ghost mut es: Seq<Seq<(Range<usize>, ErrorVariant)>> = seq![];
        proof {
            lemma_added(old(errors)@, old(errors)@, old(errors)@);
        }
        let end = match self.expr(q0, errors) {
            None => {
                proof {
                    assert(starts == Seq::<int>::empty());
                }
                q0
            },
            Some((e, first_end)) => {
                proof {
                    reveal_with_fuel(joined, 2);
                    reveal_with_fuel(somes, 2);
                    xs = seq![e];
                    es = seq![added(errs0, errors@)];
                    assert(joined(es) =~= added(errs0, errors@)) by {
                        assert(es.drop_last() == Seq::<Seq<(Range<usize>, ErrorVariant)>>::empty());
                    }
                    assert(somes(xs) =~= match e {
                        Some(x) => seq![x],
                        None => Seq::<Expr>::empty(),
                    }) by {
                        assert(xs.drop_last() == Seq::<Option<Expr>>::empty());
                    }
                }
                proof {
                    if simple {
                        assert(starts[0] == q0);
                        lemma_simple_expr_end(s, q0 as int);
                    }
                }
                match e {
                    Some(e) => exprs.push(e),
                    None => {},
                }
                let ghost mut done: Seq<int> = seq![q0 as int];
                let mut p = first_end;
                loop
                    invariant
                        self.wf(),
                        s == self.chars@,
                        pos <= p <= s.len(),
                        items_end(s, p as int) == items_end(s, first_end as int),
                        done + items_starts(s, p as int) == starts,
                        starts == scope_starts(s, pos as int),
                        simple == all_simple(s, starts),
                        done.len() > 0,
                        labels_written(s, exprs@),
                        grows(old(errors)@, errors@),
                        simple ==> atoms_as(s, done, exprs@) && errors@ == errs0,
                        xs.len() == done.len(),
                        es.len() == done.len(),
                        forall|k: int|
                            0 <= k < done.len() ==> expr_is(s, done[k], #[trigger] xs[k], es[k]),
                        exprs@ == somes(xs),
                        added(errs0, errors@) == joined(es),
                        errs0 == old(errors)@,
                    ensures
                        xs.len() == starts.len(),
                        es.len() == starts.len(),
                        forall|k: int|
                            0 <= k < starts.len() ==> expr_is(s, starts[k], #[trigger] xs[k], es[k]),
                        exprs@ == somes(xs),
                        added(errs0, errors@) == joined(es),
                        pos <= p <= s.len(),
                        p == items_end(s, first_end as int),
                        labels_written(s, exprs@),
                        grows(old(errors)@, errors@),
                        simple ==> atoms_as(s, starts, exprs@) && errors@ == errs0,
                    decreases s.len() - p,
                {
                    let q = skip_whitespace(&self.chars, p);
                    if q == p {
                        proof {
                            assert(items_starts(s, p as int) == Seq::<int>::empty());
                            assert(done == starts);
                        }
                        break;
                    }
                    let ghost before = errors@;
                    match self.expr(q, errors) {
                        None => {
                            proof {
                                assert(items_starts(s, p as int) == Seq::<int>::empty());
                                assert(done == starts);
                            }
                            break;
                        },
                        Some((e, next)) => {
                            proof {
                                lemma_items_end_after(s, next as int);
                                assert(items_starts(s, p as int) == seq![q as int] + items_starts(
                                    s,
                                    next as int,
                                ));
                                assert(done.push(q as int) + items_starts(s, next as int) == starts);
                                if simple {
                                    let k = done.len() as int;
                                    assert(starts[k] == q);
                                    assert(!at(s, starts[k], ':') && simple_atom(s, starts[k]));
                                    lemma_simple_expr_end(s, q as int);
                                }
                            }
                            let ghost xs2 = xs.push(e);
                            let ghost es2 = es.push(added(before, errors@));
                            proof {
                                assert(expr_is(s, q as int, e, added(before, errors@)));
                                lemma_added(errs0, before, errors@);
                                assert(xs2.drop_last() == xs);
                                assert(es2.drop_last() == es);
                                assert(joined(es2) == joined(es) + added(before, errors@));
                                assert(somes(xs2) == somes(xs) + match e {
                                    Some(x) => seq![x],
                                    None => Seq::<Expr>::empty(),
                                });
                                assert(xs2[done.len() as int] == e);
                                assert(es2[done.len() as int] == added(before, errors@));
                                assert(expr_is(s, q as int, xs2[done.len() as int], es2[done.len() as int]));
                            }
                            match e {
                                Some(e) => exprs.push(e),
                                None => {},
                            }
                            proof {
                                let d2 = done.push(q as int);
                                assert forall|k: int| 0 <= k < d2.len() implies expr_is(
                                    s,
                                    d2[k],
                                    #[trigger] xs2[k],
                                    es2[k],
                                ) by {
                                    if k < done.len() {
                                        assert(xs2[k] == xs[k]);
                                        assert(es2[k] == es[k]);
                                        assert(d2[k] == done[k]);
                                    } else {
                                        assert(d2[k] == q);
                                    }
                                }
                                done = d2;
                                xs = xs2;
                                es = es2;
                            }
                            p = next;
                        },
                    }
                }
                skip_whitespace(&self.chars, p)
            },
        };
        let mut found: Vec<ScopeError> = Vec::new();
        proof {
            if simple {
                lemma_no_labels_no_duplicates(exprs@);
            }
        }
        let scope = Scope::try_from_exprs_with_emit(exprs, &mut found);
        let ghost e1 = errors@;
        report_duplicates(errors, &found);
        proof {
            let dk = duplicate_errors(scope@).map_values(|e: ScopeError| dup_kind(e));
            lemma_added(old(errors)@, e1, errors@);
            lemma_scope_starts_bounds(s, pos as int);
            assert(added(old(errors)@, errors@) == joined(es) + dk);
            assert(scope_parts(s, pos as int, scope@, added(old(errors)@, errors@), xs, es));
            assert(witness_pair(xs, es));
        }
        (scope, end)
    }
}

/// Parses `text` into its top-level scope and every diagnostic, in the
/// order found. The scope is `None` only when `text` holds nothing but
/// whitespace; it is then reported as an unexpected end. Otherwise the
/// scope reaches `scope_end(text@, 0)`; the duplicate labels of the
/// top-level scope are reported next, in order, and what the scope did not
/// reach is reported last as trailing garbage, the only such error. The
/// scope and every other error are what `scope_is` relates to the text:
/// each expression with its labels, nested scopes and folded paths, and
/// each error's span and kind in order. A text of naturals and symbols
/// separated by whitespace gives exactly those atoms, and no other error.
pub fn parse(text: &str) -> (r: (Option<Scope>, Vec<Error>))
    ensures
        lone_symbol(text@) ==> r.1@.len() == 0 && (r.0 matches Some(top) && holds_symbol(
            top,
            text@,
        )),
        r.0 matches Some(top) ==> (all_simple(text@, scope_starts(text@, 0)) ==> {
            &&& atoms_as(text@, scope_starts(text@, 0), top@)
            &&& forall|k: int|
                0 <= k < r.1@.len() ==> #[trigger] r.1@[k].variant == ErrorVariant::TrailingGarbage
        }),
        r.0 matches Some(top) ==> scope_is(
            text@,
            0,
            top@,
            if scope_end(text@, 0) < text@.len() {
                kinds(r.1@).drop_last()
            } else {
                kinds(r.1@)
            },
        ),
        r.0 matches Some(top) ==> {
            let n = text@.len();
            let end = scope_end(text@, 0);
            let dups = duplicate_errors(top@);
            &&& end <= n
            &&& labels_written(text@, top@)
            &&& end < n ==> {
                &&& r.1@.len() > 0
                &&& r.1@.last().span == (Range { start: end as usize, end: n as usize })
                &&& r.1@.last().variant == ErrorVariant::TrailingGarbage
                &&& r.1@.last().trace@.len() == 0
                &&& reports(r.1@.drop_last(), r.1@.len() - 1 - dups.len(), dups)
            }
            &&& end == n ==> reports(r.1@, r.1@.len() - dups.len(), dups)
            &&& forall|k: int|
                0 <= k < r.1@.len() && #[trigger] r.1@[k].variant == ErrorVariant::TrailingGarbage
                    ==> end < n && k == r.1@.len() - 1
        },
        r.0 is None <==> forall|i: int| 0 <= i < text@.len() ==> is_white_space(#[trigger] text@[i]),
        r.0 is None ==> r.1@.len() == 1 && r.1@[0].span == (Range {
            start: text@.len() as usize,
            end: text@.len() as usize,
        }) && r.1@[0].variant == ErrorVariant::UnexpectedChar(None),
{
    let src = Source::new(text);
    let mut errors: Vec<Error> = Vec::new();
    let n = src.chars.len();
    let p = skip_whitespace(&src.chars, 0);
    if p == n {
        errors.push(
            Error::unexpected_end(p).with_label(ErrorLabel::Symbol).with_label(ErrorLabel::Reference),
        );
        return (None, errors);
    }
    proof {
        if lone_symbol(text@) {
            let s = text@;
            lemma_symbol_run(s, 0);
            assert(is_symbol_char(s[0]));
            assert(crate::natural::digit_value('0') == 0);
            assert(ws_end(s, n as int) == n);
            assert(path_end(s, n as int) == n);
            assert(natural_end(s, 0) is None);
            assert(simple_atom(s, 0));
            assert(expr_end(s, 0) == Some(n as int));
            assert(items_end(s, n as int) == n);
            assert(s.subrange(0, n as int) == s);
        }
    }
    let (scope, end) = src.scope(0, &mut errors);
    proof {
        assert(added(Seq::<Error>::empty(), errors@) =~= kinds(errors@));
    }
    if end < n {
        let ghost before = errors@;
        errors.push(Error::trailing_garbage(end..n));
        assert(errors@.drop_last() == before);
        assert(kinds(errors@).drop_last() =~= kinds(before));
    }
    (Some(scope), errors)
}

} // verus!
