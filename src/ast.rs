//! The syntax tree: labelled expressions grouped into scopes, each scope
//! indexing its expressions by the first label that names them.

use std::ops::Range;
use vstd::prelude::*;

use crate::natural::Natural;

verus! {

/// A declared name with where it was written. Two labels are equal when
/// their names are; the span only locates it.
#[derive(Debug)]
pub struct Label {
    pub span: Range<usize>,
    pub name: String,
}

impl Label {
    pub fn new(span: Range<usize>, name: &str) -> (r: Label)
        ensures
            r.span == span,
            r.name@ == name@,
    {
        Label { span, name: name.to_owned() }
    }
}

impl PartialEq for Label {
    fn eq(&self, other: &Label) -> (r: bool)
        ensures
            r == (self.name@ == other.name@),
    {
        self.name == other.name
    }
}

impl Eq for Label {
}

impl vstd::std_specs::cmp::PartialEqSpecImpl for Label {
    open spec fn obeys_eq_spec() -> bool {
        true
    }

    open spec fn eq_spec(&self, other: &Label) -> bool {
        self.name@ == other.name@
    }
}

/// A symbol expression: a bare name, a name followed by a label path that
/// is still to be resolved, or a resolved relative index path.
#[derive(Debug, PartialEq, Eq)]
pub enum Symbol {
    Unresolved(String),
    UnresolvedPath(Vec<Label>),
    Resolved(Vec<usize>),
}

impl Symbol {
    pub fn unresolved(name: &str) -> (r: Symbol)
        ensures
            r matches Symbol::Unresolved(n) && n@ == name@,
    {
        Symbol::Unresolved(name.to_owned())
    }

    pub fn unresolved_path(path: Vec<Label>) -> (r: Symbol)
        requires
            path@.len() > 0,
        ensures
            r == Symbol::UnresolvedPath(path),
    {
        Symbol::UnresolvedPath(path)
    }
}

#[derive(Debug, PartialEq, Eq)]
pub enum ExprVariant {
    Natural(Natural),
    Symbol(Symbol),
    SExpr(Scope),
}

/// An expression: its labels, the span of what follows them, and what it is.
#[derive(Debug, PartialEq, Eq)]
pub struct Expr {
    pub labels: Vec<Label>,
    pub span: Range<usize>,
    pub variant: ExprVariant,
}

/// Where a scope's first declaration of a name stands: the index of the
/// expression and the position of the label among its labels.
#[derive(Debug, PartialEq, Eq)]
struct LabelSlot {
    name: String,
    index: usize,
    position: usize,
}

/// A diagnostic of the scope builder.
#[derive(Debug, PartialEq, Eq)]
pub enum ScopeError {
    /// A label (first span) whose name an earlier label (second span)
    /// already declared.
    DuplicateLabel(Range<usize>, Range<usize>),
}

/// `table` extended by the labels of the expression at `index`: a name
/// keeps its first declaration.
pub open spec fn add_labels(
    table: Map<Seq<char>, (int, int)>,
    labels: Seq<Label>,
    index: int,
) -> Map<Seq<char>, (int, int)>
    decreases labels.len(),
{
    if labels.len() == 0 {
        table
    } else {
        let t = add_labels(table, labels.drop_last(), index);
        let name = labels.last().name@;
        if t.contains_key(name) {
            t
        } else {
            t.insert(name, (index, labels.len() - 1))
        }
    }
}

/// For each label name in `exprs`, the expression index and label position
/// of its first declaration.
pub open spec fn label_table(exprs: Seq<Expr>) -> Map<Seq<char>, (int, int)>
    decreases exprs.len(),
{
    if exprs.len() == 0 {
        Map::empty()
    } else {
        add_labels(label_table(exprs.drop_last()), exprs.last().labels@, exprs.len() - 1)
    }
}

/// Span of the label that `table` records for `name`.
pub open spec fn first_span(exprs: Seq<Expr>, table: Map<Seq<char>, (int, int)>, name: Seq<char>) -> Range<
    usize,
> {
    exprs[table[name].0].labels@[table[name].1].span
}

/// The duplicates among `labels` of the expression at `index`, where
/// `table` holds the declarations before it.
pub open spec fn label_duplicates(
    exprs: Seq<Expr>,
    table: Map<Seq<char>, (int, int)>,
    labels: Seq<Label>,
    index: int,
) -> Seq<ScopeError>
    decreases labels.len(),
{
    if labels.len() == 0 {
        seq![]
    } else {
        let t = add_labels(table, labels.drop_last(), index);
        let l = labels.last();
        label_duplicates(exprs, table, labels.drop_last(), index) + if t.contains_key(l.name@) {
            seq![ScopeError::DuplicateLabel(l.span, first_span(exprs, t, l.name@))]
        } else {
            seq![]
        }
    }
}

/// One `DuplicateLabel` per label whose name an earlier label of `exprs`
/// declared, in source order, each pointing at the first declaration.
pub open spec fn duplicate_errors(exprs: Seq<Expr>) -> Seq<ScopeError>
    decreases exprs.len(),
{
    if exprs.len() == 0 {
        seq![]
    } else {
        let prev = exprs.drop_last();
        duplicate_errors(prev) + label_duplicates(
            exprs,
            label_table(prev),
            exprs.last().labels@,
            exprs.len() - 1,
        )
    }
}

/// Some label of `exprs` is named `name`.
pub open spec fn declares(exprs: Seq<Expr>, name: Seq<char>) -> bool {
    exists|i: int, j: int|
        0 <= i < exprs.len() && 0 <= j < exprs[i].labels@.len() && #[trigger] exprs[i].labels@[j].name@
            == name
}

proof fn lemma_add_labels(
    table: Map<Seq<char>, (int, int)>,
    labels: Seq<Label>,
    index: int,
    name: Seq<char>,
)
    ensures
        add_labels(table, labels, index).contains_key(name) <==> (table.contains_key(name)
            || exists|j: int| 0 <= j < labels.len() && #[trigger] labels[j].name@ == name),
        table.contains_key(name) ==> add_labels(table, labels, index)[name] == table[name],
        !table.contains_key(name) && add_labels(table, labels, index).contains_key(name) ==> {
            let (i, j) = add_labels(table, labels, index)[name];
            &&& i == index
            &&& 0 <= j < labels.len()
            &&& labels[j].name@ == name
            &&& forall|k: int| 0 <= k < j ==> #[trigger] labels[k].name@ != name
        },
    decreases labels.len(),
{
    if labels.len() > 0 {
        let prev = labels.drop_last();
        lemma_add_labels(table, prev, index, name);
        if exists|j: int| 0 <= j < prev.len() && #[trigger] prev[j].name@ == name {
            let j = choose|j: int| 0 <= j < prev.len() && #[trigger] prev[j].name@ == name;
            assert(labels[j].name@ == name);
        }
        if exists|j: int| 0 <= j < labels.len() && #[trigger] labels[j].name@ == name {
            let j = choose|j: int| 0 <= j < labels.len() && #[trigger] labels[j].name@ == name;
            if j < prev.len() {
                assert(prev[j].name@ == name);
            }
        }
        assert forall|k: int| 0 <= k < prev.len() implies #[trigger] prev[k] == labels[k] by {}
        let t = add_labels(table, prev, index);
        if !table.contains_key(name) && t.contains_key(name) {
            let (i, j) = t[name];
            assert(labels[j] == prev[j]);
            assert forall|k: int| 0 <= k < j implies #[trigger] labels[k].name@ != name by {
                assert(labels[k] == prev[k]);
            }
        }
        if !table.contains_key(name) && !t.contains_key(name) {
            assert forall|k: int| 0 <= k < prev.len() implies #[trigger] labels[k].name@ != name by {
                if labels[k].name@ == name {
                    assert(prev[k].name@ == name);
                }
            }
        }
    }
}

/// A scope's table points at the first declaration of each name: a name is
/// in it exactly when some label of the expressions carries it, and then
/// the entry names an expression and a position that carry it, with no
/// earlier expression, and no earlier label of that expression, carrying
/// it.
pub proof fn lemma_label_table_first(exprs: Seq<Expr>, name: Seq<char>)
    ensures
        label_table(exprs).contains_key(name) <==> declares(exprs, name),
        label_table(exprs).contains_key(name) ==> {
            let (i, j) = label_table(exprs)[name];
            &&& 0 <= i < exprs.len()
            &&& 0 <= j < exprs[i].labels@.len()
            &&& exprs[i].labels@[j].name@ == name
            &&& !declares(exprs.take(i), name)
            &&& forall|k: int| 0 <= k < j ==> #[trigger] exprs[i].labels@[k].name@ != name
        },
    decreases exprs.len(),
{
    if exprs.len() > 0 {
        let prev = exprs.drop_last();
        let n = exprs.len() - 1;
        let labels = exprs.last().labels@;
        lemma_label_table_first(prev, name);
        lemma_add_labels(label_table(prev), labels, n, name);
        assert forall|i: int| 0 <= i < prev.len() implies #[trigger] prev[i] == exprs[i] by {}
        if declares(prev, name) {
            let (i, j) = choose|i: int, j: int|
                0 <= i < prev.len() && 0 <= j < prev[i].labels@.len()
                    && #[trigger] prev[i].labels@[j].name@ == name;
            assert(exprs[i].labels@[j].name@ == name);
        }
        if declares(exprs, name) {
            let (i, j) = choose|i: int, j: int|
                0 <= i < exprs.len() && 0 <= j < exprs[i].labels@.len()
                    && #[trigger] exprs[i].labels@[j].name@ == name;
            if i < n {
                assert(prev[i].labels@[j].name@ == name);
            } else {
                assert(labels[j].name@ == name);
            }
        }
        if label_table(exprs).contains_key(name) {
            let (i, j) = label_table(exprs)[name];
            if label_table(prev).contains_key(name) {
                assert(exprs.take(i) == prev.take(i));
            } else {
                assert(exprs.take(i) == prev);
            }
        }
    }
}

/// `slots` list exactly the entries of `table`.
spec fn slots_match(slots: Seq<LabelSlot>, table: Map<Seq<char>, (int, int)>) -> bool {
    &&& forall|k: int|
        0 <= k < slots.len() ==> {
            &&& #[trigger] table.contains_key(slots[k].name@)
            &&& table[slots[k].name@] == (slots[k].index as int, slots[k].position as int)
        }
    &&& forall|name: Seq<char>|
        #[trigger] table.contains_key(name) ==> exists|k: int|
            0 <= k < slots.len() && #[trigger] slots[k].name@ == name
}

/// An ordered sequence of sibling expressions with an index from each label
/// name to the first expression that declared it.
#[derive(Debug, PartialEq, Eq)]
pub struct Scope {
    exprs: Vec<Expr>,
    slots: Vec<LabelSlot>,
}

impl View for Scope {
    type V = Seq<Expr>;

    closed spec fn view(&self) -> Seq<Expr> {
        self.exprs@
    }
}


/// Index of the slot named `name`, if any.
fn find_slot(slots: &Vec<LabelSlot>, name: &String) -> (r: Option<usize>)
    ensures
        match r {
            Some(k) => k < slots@.len() && slots@[k as int].name@ == name@,
            None => forall|k: int| 0 <= k < slots@.len() ==> #[trigger] slots@[k].name@ != name@,
        },
{
    let mut k: usize = 0;
    while k < slots.len()
        invariant
            k <= slots@.len(),
            forall|j: int| 0 <= j < k ==> #[trigger] slots@[j].name@ != name@,
        decreases slots@.len() - k,
    {
        if slots[k].name == *name {
            return Some(k);
        }
        k += 1;
    }
    None
}

impl Scope {
    #[verifier::type_invariant]
    spec fn wf(self) -> bool {
        &&& slots_match(self.slots@, label_table(self.exprs@))
        &&& forall|k: int|
            0 <= k < self.slots@.len() ==> {
                let s = #[trigger] self.slots@[k];
                &&& s.index < self.exprs@.len()
                &&& s.position < self.exprs@[s.index as int].labels@.len()
            }
    }

    /// Builds the scope of `exprs`, keeping the first declaration of each
    /// label name.
    pub fn from_exprs(exprs: Vec<Expr>) -> (r: Scope)
        ensures
            r@ == exprs@,
    {
        let mut errors: Vec<ScopeError> = Vec::new();
        Scope::try_from_exprs_with_emit(exprs, &mut errors)
    }

    /// Builds the scope of `exprs`; `Err` carries the duplicate labels, in
    /// source order, together with the scope built all the same.
    pub fn try_from_exprs(exprs: Vec<Expr>) -> (r: Result<Scope, (Vec<ScopeError>, Scope)>)
        ensures
            match r {
                Ok(s) => s@ == exprs@ && duplicate_errors(exprs@).len() == 0,
                Err((errs, s)) => s@ == exprs@ && errs@ == duplicate_errors(exprs@)
                    && errs@.len() > 0,
            },
    {
        let mut errors: Vec<ScopeError> = Vec::new();
        let scope = Scope::try_from_exprs_with_emit(exprs, &mut errors);
        if errors.len() == 0 {
            Ok(scope)
        } else {
            Err((errors, scope))
        }
    }

    /// Index of the expression that first declared the label `name`.
    pub fn get(&self, name: &str) -> (r: Option<usize>)
        ensures
            match r {
                Some(i) => label_table(self@).contains_key(name@) && label_table(self@)[name@].0
                    == i,
                None => !label_table(self@).contains_key(name@),
            },
    {
        self.get_label(&name.to_owned())
    }

    fn get_label(&self, name: &String) -> (r: Option<usize>)
        ensures
            match r {
                Some(i) => label_table(self@).contains_key(name@) && label_table(self@)[name@].0
                    == i && i < self@.len(),
                None => !label_table(self@).contains_key(name@),
            },
    {
        proof {
            use_type_invariant(self);
            assert(self@ == self.exprs@);
        }
        match find_slot(&self.slots, name) {
            Some(k) => {
                let i = self.slots[k].index;
                assert(i < self.exprs@.len());
                assert(label_table(self@).contains_key(name@));
                assert(label_table(self@)[name@].0 == i);
                Some(i)
            },
            None => None,
        }
    }

    /// The expressions, in order.
    pub fn exprs(&self) -> (r: &Vec<Expr>)
        ensures
            r@ == self@,
    {
        &self.exprs
    }

    /// The expressions, in order.
    pub fn into_exprs(self) -> (r: Vec<Expr>)
        ensures
            r@ == self@,
    {
        self.exprs
    }

    pub fn len(&self) -> (r: usize)
        ensures
            r == self@.len(),
    {
        self.exprs.len()
    }

    /// Builds the scope of `exprs`; each duplicate label is appended to
    /// `errors`, pointing at the declaration that keeps the name.
    pub fn try_from_exprs_with_emit(exprs: Vec<Expr>, errors: &mut Vec<ScopeError>) -> (r: Scope)
        ensures
            r@ == exprs@,
            final(errors)@ == old(errors)@ + duplicate_errors(exprs@),
    {
        let mut slots: Vec<LabelSlot> = Vec::new();
        let mut i: usize = 0;
        while i < exprs.len()
            invariant
                i <= exprs@.len(),
                slots_match(slots@, label_table(exprs@.take(i as int))),
                forall|k: int|
                    0 <= k < slots@.len() ==> {
                        let s = #[trigger] slots@[k];
                        &&& s.index < i
                        &&& s.position < exprs@[s.index as int].labels@.len()
                    },
                errors@ == old(errors)@ + duplicate_errors(exprs@.take(i as int)),
            decreases exprs@.len() - i,
        {
            let labels = &exprs[i].labels;
            let ghost before = label_table(exprs@.take(i as int));
            let ghost errs_before = errors@;
            let mut j: usize = 0;
            while j < labels.len()
                invariant
                    i < exprs@.len(),
                    labels == &exprs@[i as int].labels,
                    j <= labels@.len(),
                    slots_match(slots@, add_labels(before, labels@.take(j as int), i as int)),
                    forall|k: int|
                        0 <= k < slots@.len() ==> {
                            let s = #[trigger] slots@[k];
                            &&& s.index <= i
                            &&& s.position < exprs@[s.index as int].labels@.len()
                        },
                    errors@ == errs_before + label_duplicates(
                        exprs@.take(i as int + 1),
                        before,
                        labels@.take(j as int),
                        i as int,
                    ),
                decreases labels@.len() - j,
            {
                let label = &labels[j];
                let ghost t = add_labels(before, labels@.take(j as int), i as int);
                proof {
                    assert(labels@.take(j as int + 1).drop_last() == labels@.take(j as int));
                }
                match find_slot(&slots, &label.name) {
                    Some(k) => {
                        let slot = &slots[k];
                        let first = &exprs[slot.index].labels[slot.position].span;
                        errors.push(
                            ScopeError::DuplicateLabel(
                                label.span.start..label.span.end,
                                first.start..first.end,
                            ),
                        );
                        proof {
                            assert(exprs@.take(i as int + 1)[slot.index as int] == exprs@[slot.index as int]);
                        }
                    },
                    None => {
                        proof {
                            if t.contains_key(label.name@) {
                                let k = choose|k: int| 0 <= k < slots@.len() && #[trigger] slots@[k].name@ == label.name@;
                            }
                        }
                        let ghost old_slots = slots@;
                        slots.push(LabelSlot { name: label.name.clone(), index: i, position: j });
                        proof {
                            let t2 = t.insert(label.name@, (i as int, j as int));
                            assert forall|name: Seq<char>| #[trigger] t2.contains_key(name) implies exists|k: int|
                                0 <= k < slots@.len() && #[trigger] slots@[k].name@ == name by {
                                if name != label.name@ {
                                    assert(t.contains_key(name));
                                    let k = choose|k: int| 0 <= k < old_slots.len() && #[trigger] old_slots[k].name@ == name;
                                    assert(slots@[k] == old_slots[k]);
                                } else {
                                    assert(slots@[slots@.len() - 1].name@ == name);
                                }
                            }
                        }
                    },
                }
                j += 1;
            }
            proof {
                assert(labels@.take(j as int) == labels@);
                assert(exprs@.take(i as int + 1).drop_last() == exprs@.take(i as int));
                assert(exprs@.take(i as int + 1).last() == exprs@[i as int]);
            }
            i += 1;
        }
        proof {
            assert(exprs@.take(i as int) == exprs@);
        }
        Scope { exprs, slots }
    }
}


/// Span from the start of `path[from]` to the end of the last label.
pub open spec fn remainder_span(path: Seq<Label>, from: int) -> Range<usize> {
    Range { start: path[from].span.start, end: path.last().span.end }
}

/// Span of a non-empty label path.
pub fn path_span(path: &Vec<Label>) -> (r: Range<usize>)
    requires
        path@.len() > 0,
    ensures
        r == remainder_span(path@, 0),
{
    path[0].span.start..path[path.len() - 1].span.end
}

/// `r` is what folding `path[depth..]` into a base of `variant`, written
/// at `own`, gives: a symbol takes the labels onto its path; a scope hands
/// over the variant of the expression that the next label names and the
/// fold goes on there; a natural, or a scope without that label, is an
/// invalid path over the whole remainder.
pub open spec fn variant_resolves(
    variant: ExprVariant,
    own: Range<usize>,
    path: Seq<Label>,
    depth: int,
    r: Result<ExprVariant, Range<usize>>,
) -> bool
    decreases path.len() - depth,
{
    if depth < 0 || depth >= path.len() {
        r == Ok::<ExprVariant, Range<usize>>(variant)
    } else {
        match variant {
            ExprVariant::SExpr(s) => {
                let t = label_table(s@);
                let name = path[depth].name@;
                if t.contains_key(name) {
                    let c = s@[t[name].0];
                    variant_resolves(c.variant, c.span, path, depth + 1, r)
                } else {
                    r == Err::<ExprVariant, Range<usize>>(remainder_span(path, depth))
                }
            },
            ExprVariant::Symbol(Symbol::Unresolved(name)) => r matches Ok(
                ExprVariant::Symbol(Symbol::UnresolvedPath(p)),
            ) && p@ == seq![Label { span: own, name }] + path.skip(depth),
            ExprVariant::Symbol(Symbol::UnresolvedPath(q)) => r matches Ok(
                ExprVariant::Symbol(Symbol::UnresolvedPath(p)),
            ) && p@ == q@ + path.skip(depth),
            _ => r == Err::<ExprVariant, Range<usize>>(remainder_span(path, depth)),
        }
    }
}

fn resolve_variant(variant: ExprVariant, own: Range<usize>, path: Vec<Label>, depth: usize) -> (r:
    Result<ExprVariant, Range<usize>>)
    requires
        depth <= path@.len(),
    ensures
        variant_resolves(variant, own, path@, depth as int, r),
    decreases path@.len() - depth,
{
    if depth >= path.len() {
        return Ok(variant);
    }
    let rest_span = path[depth].span.start..path[path.len() - 1].span.end;
    match variant {
        ExprVariant::SExpr(scope) => {
            match scope.get_label(&path[depth].name) {
                Some(i) => {
                    let ghost s = scope@;
                    let ghost name = path@[depth as int].name@;
                    assert(label_table(s).contains_key(name) && label_table(s)[name].0 == i);
                    let mut exprs = scope.into_exprs();
                    let child = exprs.swap_remove(i);
                    assert(child == s[i as int]);
                    let r = resolve_variant(child.variant, child.span, path, depth + 1);
                    assert(variant_resolves(s[i as int].variant, s[i as int].span, path@, depth + 1, r));
                    r
                },
                None => Err(rest_span),
            }
        },
        ExprVariant::Symbol(Symbol::Unresolved(name)) => {
            let ghost whole = path@;
            let first = Label { span: own, name };
            let ghost head = first;
            let mut p: Vec<Label> = Vec::new();
            p.push(first);
            let mut path = path;
            let mut tail = path.split_off(depth);
            assert(tail@ == whole.skip(depth as int));
            p.append(&mut tail);
            assert(p@ == seq![head] + whole.skip(depth as int));
            Ok(ExprVariant::Symbol(Symbol::UnresolvedPath(p)))
        },
        ExprVariant::Symbol(Symbol::UnresolvedPath(q)) => {
            let mut p = q;
            let mut path = path;
            let mut tail = path.split_off(depth);
            p.append(&mut tail);
            Ok(ExprVariant::Symbol(Symbol::UnresolvedPath(p)))
        },
        _ => Err(rest_span),
    }
}

impl Expr {
    pub fn variant(labels: Vec<Label>, span: Range<usize>, variant: ExprVariant) -> (r: Expr)
        ensures
            r == (Expr { labels, span, variant }),
    {
        Expr { labels, span, variant }
    }

    pub fn natural(labels: Vec<Label>, span: Range<usize>, natural: Natural) -> (r: Expr)
        ensures
            r == (Expr { labels, span, variant: ExprVariant::Natural(natural) }),
    {
        Expr { labels, span, variant: ExprVariant::Natural(natural) }
    }

    /// A bare symbol `name`.
    pub fn symbol(labels: Vec<Label>, span: Range<usize>, name: &str) -> (r: Expr)
        ensures
            r.labels == labels,
            r.span == span,
            r.variant matches ExprVariant::Symbol(Symbol::Unresolved(n)) && n@ == name@,
    {
        Expr { labels, span, variant: ExprVariant::Symbol(Symbol::unresolved(name)) }
    }

    /// A symbol with an unresolved label path.
    pub fn path(labels: Vec<Label>, span: Range<usize>, path: Vec<Label>) -> (r: Expr)
        requires
            path@.len() > 0,
        ensures
            r == (Expr { labels, span, variant: ExprVariant::Symbol(Symbol::UnresolvedPath(path)) }),
    {
        Expr { labels, span, variant: ExprVariant::Symbol(Symbol::UnresolvedPath(path)) }
    }

    pub fn sexpr(labels: Vec<Label>, span: Range<usize>, scope: Scope) -> (r: Expr)
        ensures
            r == (Expr { labels, span, variant: ExprVariant::SExpr(scope) }),
    {
        Expr { labels, span, variant: ExprVariant::SExpr(scope) }
    }

    /// The same expression with `labels` in place of its own.
    pub fn with_labels(self, labels: Vec<Label>) -> (r: Expr)
        ensures
            r == (Expr { labels, ..self }),
    {
        Expr { labels, ..self }
    }

    /// Span from the first label, if any, to the end of the expression.
    pub fn span_with_labels(&self) -> (r: Range<usize>)
        ensures
            r.end == self.span.end,
            r.start == if self.labels@.len() > 0 {
                self.labels@[0].span.start
            } else {
                self.span.start
            },
    {
        let start = if self.labels.len() > 0 {
            self.labels[0].span.start
        } else {
            self.span.start
        };
        start..self.span.end
    }

    /// Folds the label path `path` into this expression (see
    /// `variant_resolves`); the result keeps the labels and spans from the
    /// start of this expression to the end of the path. `Err` is the span of
    /// the part of the path that could not be followed.
    pub fn with_path(self, path: Vec<Label>) -> (r: Result<Expr, Range<usize>>)
        ensures
            path@.len() == 0 ==> r == Ok::<Expr, Range<usize>>(self),
            path@.len() > 0 ==> match r {
                Ok(x) => {
                    &&& x.labels == self.labels
                    &&& x.span == (Range { start: self.span.start, end: path@.last().span.end })
                    &&& variant_resolves(self.variant, self.span, path@, 0, Ok(x.variant))
                },
                Err(e) => variant_resolves(self.variant, self.span, path@, 0, Err(e)),
            },
    {
        if path.len() == 0 {
            return Ok(self);
        }
        let span = self.span.start..path[path.len() - 1].span.end;
        match resolve_variant(self.variant, self.span, path, 0) {
            Ok(variant) => Ok(Expr { labels: self.labels, span, variant }),
            Err(e) => Err(e),
        }
    }
}

} // verus!
