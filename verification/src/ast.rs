//! The statement tree that the transform path walks.
//!
//! A syntax tree provider parses source text; callers convert the parts the
//! directive engine reads into this model: string-literal expression
//! statements (the only statements that can be directives), functions and
//! block-bodied arrow functions (whose bodies are scopes that can host a
//! directive), and everything else as opaque statements that may still carry
//! nested functions.

use vstd::prelude::*;

use crate::typo::near;

verus! {

/// A byte range of the original source, attached to every candidate
/// directive statement and carried on every diagnostic.
#[derive(Clone, Copy, PartialEq, Eq, Structural, Debug)]
pub struct Span {
    pub lo: usize,
    pub hi: usize,
}

/// One statement of the transform-path tree.
#[derive(Debug)]
pub enum Stmt {
    /// An expression statement whose expression is a string literal;
    /// `value` is the cooked value of the literal.
    Lit { value: String, span: Span },
    /// A function (declaration, expression or method) together with the
    /// statements of its body; a body-less declaration has an empty body.
    Func { is_async: bool, body: Vec<Stmt> },
    /// An arrow function with a block body; arrows with expression bodies
    /// are `Other` statements, since their body is not a scope.
    Arrow { arrow_body: Vec<Stmt> },
    /// Any other statement or module item; `children` holds the nested
    /// statements and functions it contains, in source order.
    Other { children: Vec<Stmt> },
}

/// A whole module: the ordered statements of its top level.
#[derive(Debug)]
pub struct ModuleAst {
    pub body: Vec<Stmt>,
}

/// The mathematical shape of a statement: `Stmt` with sequences for vectors.
pub enum GStmt {
    Lit { value: Seq<char>, span: Span },
    Func { is_async: bool, body: Seq<GStmt> },
    Arrow { arrow_body: Seq<GStmt> },
    Other { children: Seq<GStmt> },
}

/// The abstraction of one statement.
pub open spec fn sview(s: Stmt) -> GStmt
    decreases s,
{
    match s {
        Stmt::Lit { value, span } => GStmt::Lit { value: value@, span },
        Stmt::Func { is_async, body } => GStmt::Func { is_async, body: sviews(body@) },
        Stmt::Arrow { arrow_body } => GStmt::Arrow { arrow_body: sviews(arrow_body@) },
        Stmt::Other { children } => GStmt::Other { children: sviews(children@) },
    }
}

/// The abstraction of a statement sequence, element by element.
pub open spec fn sviews(ss: Seq<Stmt>) -> Seq<GStmt>
    decreases ss,
{
    if ss.len() == 0 {
        Seq::empty()
    } else {
        seq![sview(ss[0])] + sviews(ss.drop_first())
    }
}

pub proof fn lemma_sviews_len(ss: Seq<Stmt>)
    ensures
        sviews(ss).len() == ss.len(),
    decreases ss,
{
    if ss.len() > 0 {
        lemma_sviews_len(ss.drop_first());
    }
}

pub proof fn lemma_sviews_index(ss: Seq<Stmt>, i: int)
    requires
        0 <= i < ss.len(),
    ensures
        sviews(ss).len() == ss.len(),
        sviews(ss)[i] == sview(ss[i]),
    decreases ss,
{
    lemma_sviews_len(ss);
    if i > 0 {
        lemma_sviews_index(ss.drop_first(), i - 1);
    }
}

/// The directive pragma: the fixed string literal that marks a runner.
pub open spec fn pragma() -> Seq<char> {
    "use runner"@
}

/// The statement is a string literal equal to the pragma.
pub open spec fn is_exact(s: GStmt) -> bool {
    s matches GStmt::Lit { value, .. } && value == pragma()
}

/// The statement is a string literal one edit away from the pragma.
pub open spec fn is_near_miss(s: GStmt) -> bool {
    s matches GStmt::Lit { value, .. } && value != pragma() && near(value, pragma())
}

/// The statement is removed by the stripper: a recognized or a misspelled
/// directive.
pub open spec fn is_directive_like(s: GStmt) -> bool {
    is_exact(s) || is_near_miss(s)
}

/// The span of a literal statement.
pub open spec fn lit_span(s: GStmt) -> Span
    recommends
        s is Lit,
{
    s->span
}

/// The literal text of a literal statement.
pub open spec fn lit_value(s: GStmt) -> Seq<char>
    recommends
        s is Lit,
{
    s->value
}

/// The index of the first string-literal statement of a scope, or the
/// scope's length when it has none.
pub open spec fn first_lit(ss: Seq<GStmt>) -> int
    decreases ss,
{
    if ss.len() == 0 {
        0
    } else if ss[0] is Lit {
        0
    } else {
        1 + first_lit(ss.drop_first())
    }
}

pub proof fn lemma_first_lit(ss: Seq<GStmt>)
    ensures
        0 <= first_lit(ss) <= ss.len(),
        forall|j: int| 0 <= j < first_lit(ss) ==> !(ss[j] is Lit),
        first_lit(ss) < ss.len() ==> ss[first_lit(ss)] is Lit,
    decreases ss,
{
    if ss.len() > 0 && !(ss[0] is Lit) {
        lemma_first_lit(ss.drop_first());
        assert forall|j: int| 0 <= j < first_lit(ss) implies !(ss[j] is Lit) by {
            if j > 0 {
                assert(ss[j] == ss.drop_first()[j - 1]);
            }
        }
    }
}

/// A scope's statement sequence with every recognized or misspelled
/// directive removed and every surviving statement itself stripped.
pub open spec fn strip_scope(ss: Seq<GStmt>) -> Seq<GStmt>
    decreases ss,
{
    if ss.len() == 0 {
        Seq::empty()
    } else {
        let rest = strip_scope(ss.drop_first());
        if is_directive_like(ss[0]) {
            rest
        } else {
            seq![strip_stmt(ss[0])] + rest
        }
    }
}

/// A statement with every scope below it stripped. Only scopes (module
/// bodies, function bodies, arrow block bodies) lose statements; the
/// children of other statements are kept, each stripped in place.
pub open spec fn strip_stmt(s: GStmt) -> GStmt
    decreases s,
{
    match s {
        GStmt::Lit { .. } => s,
        GStmt::Func { is_async, body } => GStmt::Func { is_async, body: strip_scope(body) },
        GStmt::Arrow { arrow_body } => GStmt::Arrow { arrow_body: strip_scope(arrow_body) },
        GStmt::Other { children } => GStmt::Other { children: strip_each(children) },
    }
}

/// A statement sequence that is not a scope: every element is stripped,
/// none is removed.
pub open spec fn strip_each(ss: Seq<GStmt>) -> Seq<GStmt>
    decreases ss,
{
    if ss.len() == 0 {
        Seq::empty()
    } else {
        seq![strip_stmt(ss[0])] + strip_each(ss.drop_first())
    }
}

/// Stripping is idempotent on scopes: a second pass removes nothing,
/// because no recognized or misspelled directive survives the first.
pub proof fn lemma_strip_scope_idempotent(ss: Seq<GStmt>)
    ensures
        strip_scope(strip_scope(ss)) == strip_scope(ss),
    decreases ss,
{
    if ss.len() > 0 {
        lemma_strip_scope_idempotent(ss.drop_first());
        if !is_directive_like(ss[0]) {
            lemma_strip_stmt_idempotent(ss[0]);
            let rest = strip_scope(ss.drop_first());
            let whole = seq![strip_stmt(ss[0])] + rest;
            assert(whole.drop_first() =~= rest);
            assert(strip_scope(whole) =~= seq![strip_stmt(strip_stmt(ss[0]))] + strip_scope(
                rest,
            ));
            assert(strip_scope(strip_scope(ss)) =~= strip_scope(ss));
        }
    }
}

/// Stripping is idempotent on single statements.
pub proof fn lemma_strip_stmt_idempotent(s: GStmt)
    ensures
        strip_stmt(strip_stmt(s)) == strip_stmt(s),
    decreases s,
{
    match s {
        GStmt::Lit { .. } => {},
        GStmt::Func { is_async, body } => {
            lemma_strip_scope_idempotent(body);
        },
        GStmt::Arrow { arrow_body } => {
            lemma_strip_scope_idempotent(arrow_body);
        },
        GStmt::Other { children } => {
            lemma_strip_each_idempotent(children);
        },
    }
}

/// Stripping is idempotent on non-scope statement sequences.
pub proof fn lemma_strip_each_idempotent(ss: Seq<GStmt>)
    ensures
        strip_each(strip_each(ss)) == strip_each(ss),
    decreases ss,
{
    if ss.len() > 0 {
        lemma_strip_stmt_idempotent(ss[0]);
        lemma_strip_each_idempotent(ss.drop_first());
        let rest = strip_each(ss.drop_first());
        let whole = seq![strip_stmt(ss[0])] + rest;
        assert(whole.drop_first() =~= rest);
        assert(strip_each(strip_each(ss)) =~= strip_each(ss));
    }
}

} // verus!
