//! The transform path: locating and validating "use runner" directives in a
//! module tree, and stripping them from the statement lists they occupy.
//!
//! Every string literal one edit from the pragma is flagged as a
//! misspelling, wherever it stands: whatever the stripper removes is
//! diagnosed. At the module top level, the first exact pragma is flagged as
//! misplaced unless it is the module's first statement. A function or
//! arrow-block body is judged by its first string-literal statement — an
//! exact pragma there is recognized (and a non-async host function flagged)
//! — and every exact pragma after that candidate is flagged as misplaced.
//! Diagnostics are computed against the unmodified tree; stripping
//! afterwards removes every recognized or misspelled directive from every
//! scope.

use vstd::prelude::*;

use crate::ast::{
    GStmt, ModuleAst, Span, Stmt, first_lit, is_directive_like, is_exact, is_near_miss,
    lemma_first_lit, lemma_sviews_index, lemma_sviews_len, lit_span, lit_value,
    pragma, strip_each, strip_scope, strip_stmt, sview, sviews,
};
use crate::text::{chars_eq, chars_of};
use crate::typo::near_match;
use vstd::string::StringExecFns;

verus! {

/// Where a misplaced directive was found.
#[derive(Clone, Copy, PartialEq, Eq, Structural, Debug)]
pub enum DirectiveLocation {
    Module,
    FunctionBody,
}

/// A diagnostic produced by directive validation, bound to the source span
/// of the offending statement.
#[derive(Debug, Clone, PartialEq, Eq)]
pub enum RunnerErrorKind {
    /// The pragma marks a function that is not declared async.
    NonAsyncFunction { span: Span },
    /// The pragma appears somewhere other than the top of its scope.
    MisplacedDirective { span: Span, location: DirectiveLocation },
    /// A string literal one edit away from the pragma.
    MisspelledDirective { span: Span, directive: String },
}

/// The mathematical shape of a diagnostic.
pub enum GDiag {
    NonAsyncFunction { span: Span },
    MisplacedDirective { span: Span, location: DirectiveLocation },
    MisspelledDirective { span: Span, directive: Seq<char> },
}

/// The abstraction of one diagnostic.
pub open spec fn dview(d: RunnerErrorKind) -> GDiag {
    match d {
        RunnerErrorKind::NonAsyncFunction { span } => GDiag::NonAsyncFunction { span },
        RunnerErrorKind::MisplacedDirective { span, location } => GDiag::MisplacedDirective {
            span,
            location,
        },
        RunnerErrorKind::MisspelledDirective { span, directive } => GDiag::MisspelledDirective {
            span,
            directive: directive@,
        },
    }
}

/// The abstraction of a diagnostic sequence.
pub open spec fn dviews(ds: Seq<RunnerErrorKind>) -> Seq<GDiag> {
    ds.map_values(|d: RunnerErrorKind| dview(d))
}

proof fn lemma_dviews_push(ds: Seq<RunnerErrorKind>, d: RunnerErrorKind)
    ensures
        dviews(ds.push(d)) == dviews(ds).push(dview(d)),
{
    assert(dviews(ds.push(d)) =~= dviews(ds).push(dview(d)));
}

/// The kind of scope being validated: the NonAsyncFunction check applies
/// only to function bodies, whose async-ness is known; arrow bodies carry
/// no async marker of their own and are exempt from it.
#[derive(Clone, Copy, PartialEq, Eq, Structural, Debug)]
pub enum ScopeKind {
    Module,
    Function { is_async: bool },
    ArrowBody,
}

/// The diagnostics of a function or arrow-body scope's statements from
/// index `j` on, past the candidate: every exact pragma is misplaced, and
/// every near-miss literal is misspelled, in index order.
pub open spec fn trailing_diags(ss: Seq<GStmt>, j: int) -> Seq<GDiag>
    decreases ss.len() - j,
{
    if j < 0 || j >= ss.len() {
        Seq::empty()
    } else {
        let rest = trailing_diags(ss, j + 1);
        let here = if is_exact(ss[j]) {
            seq![
                GDiag::MisplacedDirective {
                    span: lit_span(ss[j]),
                    location: DirectiveLocation::FunctionBody,
                },
            ]
        } else if is_near_miss(ss[j]) {
            seq![
                GDiag::MisspelledDirective { span: lit_span(ss[j]), directive: lit_value(ss[j]) },
            ]
        } else {
            Seq::<GDiag>::empty()
        };
        here + rest
    }
}

/// The index of the first exact-pragma statement of a scope, or the
/// scope's length when it has none.
pub open spec fn first_exact(ss: Seq<GStmt>) -> int
    decreases ss,
{
    if ss.len() == 0 {
        0
    } else if is_exact(ss[0]) {
        0
    } else {
        1 + first_exact(ss.drop_first())
    }
}

proof fn lemma_first_exact_unique(ss: Seq<GStmt>, k: int)
    requires
        0 <= k <= ss.len(),
        forall|j: int| 0 <= j < k ==> !is_exact(ss[j]),
        k < ss.len() ==> is_exact(ss[k]),
    ensures
        first_exact(ss) == k,
    decreases ss,
{
    if ss.len() > 0 && !is_exact(ss[0]) {
        assert(forall|j: int| 0 <= j < k - 1 ==> ss.drop_first()[j] == ss[j + 1]);
        lemma_first_exact_unique(ss.drop_first(), k - 1);
    }
}

/// The misspelled-directive diagnostics for every near-miss literal of the
/// module scope at an index in `[j, e)`.
pub open spec fn misspelled_before(ss: Seq<GStmt>, j: int, e: int) -> Seq<GDiag>
    decreases e - j,
{
    if j < 0 || j >= e || j >= ss.len() {
        Seq::empty()
    } else {
        let rest = misspelled_before(ss, j + 1, e);
        if is_near_miss(ss[j]) {
            seq![
                GDiag::MisspelledDirective { span: lit_span(ss[j]), directive: lit_value(ss[j]) },
            ] + rest
        } else {
            rest
        }
    }
}

/// Extending the scan bound by one statement appends that statement's
/// misspelling diagnostic, if it is a near miss.
proof fn lemma_misspelled_before_extend(ss: Seq<GStmt>, t: int, j: int)
    requires
        0 <= t <= j < ss.len(),
    ensures
        misspelled_before(ss, t, j + 1) == misspelled_before(ss, t, j) + (if is_near_miss(
            ss[j],
        ) {
            seq![
                GDiag::MisspelledDirective { span: lit_span(ss[j]), directive: lit_value(ss[j]) },
            ]
        } else {
            Seq::<GDiag>::empty()
        }),
    decreases j - t,
{
    let tail = if is_near_miss(ss[j]) {
        seq![GDiag::MisspelledDirective { span: lit_span(ss[j]), directive: lit_value(ss[j]) }]
    } else {
        Seq::<GDiag>::empty()
    };
    if t == j {
        assert(misspelled_before(ss, j + 1, j + 1) =~= Seq::<GDiag>::empty());
        assert(misspelled_before(ss, t, j + 1) =~= misspelled_before(ss, t, j) + tail);
    } else {
        lemma_misspelled_before_extend(ss, t + 1, j);
        assert(misspelled_before(ss, t, j + 1) =~= misspelled_before(ss, t, j) + tail);
    }
}

/// A stretch without near-miss literals yields no misspelling diagnostics.
proof fn lemma_misspelled_before_empty(ss: Seq<GStmt>, j: int, e: int)
    requires
        forall|k: int| j <= k < e && 0 <= k < ss.len() ==> !is_near_miss(ss[k]),
    ensures
        misspelled_before(ss, j, e) == Seq::<GDiag>::empty(),
    decreases e - j,
{
    if !(j < 0 || j >= e || j >= ss.len()) {
        lemma_misspelled_before_empty(ss, j + 1, e);
    }
}

/// A stretch without exact pragmas or near misses yields no diagnostics.
proof fn lemma_trailing_diags_empty(ss: Seq<GStmt>, j: int)
    requires
        forall|k: int| j <= k < ss.len() && 0 <= k ==> !is_exact(ss[k]) && !is_near_miss(ss[k]),
    ensures
        trailing_diags(ss, j) == Seq::<GDiag>::empty(),
    decreases ss.len() - j,
{
    if !(j < 0 || j >= ss.len()) {
        lemma_trailing_diags_empty(ss, j + 1);
    }
}

/// The diagnostics of one scope, in emission order.
///
/// Module scope: every near-miss literal of the scope is flagged as
/// misspelled, in order; the module's first exact pragma, when it is not
/// the module's first statement, is then flagged as misplaced.
///
/// Function and arrow-body scopes: the first string-literal statement is the
/// scope's candidate directive. An exact candidate is recognized, and a
/// recognized non-async function is flagged; a near-miss candidate is
/// flagged as misspelled wherever it stands. After the candidate, every
/// exact pragma is flagged as misplaced and every near-miss literal as
/// misspelled, whatever the candidate was.
pub open spec fn scope_diags(kind: ScopeKind, ss: Seq<GStmt>) -> Seq<GDiag> {
    match kind {
        ScopeKind::Module => {
            let e = first_exact(ss);
            let typos = misspelled_before(ss, 0, ss.len() as int);
            let head = if 0 < e < ss.len() {
                seq![
                    GDiag::MisplacedDirective {
                        span: lit_span(ss[e]),
                        location: DirectiveLocation::Module,
                    },
                ]
            } else {
                Seq::empty()
            };
            typos + head
        },
        _ => {
            let i = first_lit(ss);
            if i >= ss.len() {
                Seq::empty()
            } else {
                let c = ss[i];
                let head = if is_exact(c) {
                    match kind {
                        ScopeKind::Function { is_async } => if !is_async {
                            seq![GDiag::NonAsyncFunction { span: lit_span(c) }]
                        } else {
                            Seq::empty()
                        },
                        _ => Seq::empty(),
                    }
                } else if is_near_miss(c) {
                    seq![
                        GDiag::MisspelledDirective { span: lit_span(c), directive: lit_value(c) },
                    ]
                } else {
                    Seq::empty()
                };
                head + trailing_diags(ss, i + 1)
            }
        },
    }
}

/// The diagnostics of a statement: those of the scopes it opens, then those
/// of everything nested below, in source order.
pub open spec fn stmt_diags(s: GStmt) -> Seq<GDiag>
    decreases s,
{
    match s {
        GStmt::Lit { .. } => Seq::empty(),
        GStmt::Func { is_async, body } => scope_diags(ScopeKind::Function { is_async }, body)
            + stmts_diags(body),
        GStmt::Arrow { arrow_body } => scope_diags(ScopeKind::ArrowBody, arrow_body)
            + stmts_diags(arrow_body),
        GStmt::Other { children } => stmts_diags(children),
    }
}

/// The diagnostics of a statement sequence, statement by statement.
pub open spec fn stmts_diags(ss: Seq<GStmt>) -> Seq<GDiag>
    decreases ss,
{
    if ss.len() == 0 {
        Seq::empty()
    } else {
        stmt_diags(ss[0]) + stmts_diags(ss.drop_first())
    }
}

/// The diagnostics of a whole module: its own scope first, then every
/// nested scope in pre-order.
pub open spec fn module_diags(body: Seq<GStmt>) -> Seq<GDiag> {
    scope_diags(ScopeKind::Module, body) + stmts_diags(body)
}

/// `first_lit` is the unique index bounding a literal-free prefix.
proof fn lemma_first_lit_unique(ss: Seq<GStmt>, k: int)
    requires
        0 <= k <= ss.len(),
        forall|j: int| 0 <= j < k ==> !(ss[j] is Lit),
        k < ss.len() ==> ss[k] is Lit,
    ensures
        first_lit(ss) == k,
    decreases ss,
{
    if ss.len() > 0 && !(ss[0] is Lit) {
        assert(forall|j: int| 0 <= j < k - 1 ==> ss.drop_first()[j] == ss[j + 1]);
        lemma_first_lit_unique(ss.drop_first(), k - 1);
    }
}

/// The index of the first string-literal statement of `ss`, or its length.
fn find_first_lit(ss: &Vec<Stmt>) -> (r: usize)
    ensures
        r as int == first_lit(sviews(ss@)),
        r <= ss@.len(),
{
    proof {
        lemma_sviews_len(ss@);
    }
    let n = ss.len();
    let mut i: usize = 0;
    while i < n
        invariant
            n == ss@.len(),
            sviews(ss@).len() == n,
            i <= n,
            forall|j: int| 0 <= j < i ==> !(#[trigger] sviews(ss@)[j] is Lit),
        decreases n - i,
    {
        proof {
            lemma_sviews_index(ss@, i as int);
        }
        let is_lit = match &ss[i] {
            Stmt::Lit { .. } => true,
            _ => false,
        };
        if is_lit {
            proof {
                lemma_first_lit_unique(sviews(ss@), i as int);
            }
            return i;
        }
        i += 1;
    }
    proof {
        lemma_first_lit_unique(sviews(ss@), n as int);
    }
    n
}

/// Whether the statement is a string literal exactly equal to the pragma.
fn stmt_is_exact(s: &Stmt) -> (r: bool)
    ensures
        r == is_exact(sview(*s)),
{
    match s {
        Stmt::Lit { value, .. } => {
            let vc = chars_of(value.as_str());
            let pc = chars_of("use runner");
            chars_eq(&vc, &pc)
        },
        _ => false,
    }
}

/// Whether the statement is a string literal one edit away from the pragma.
fn stmt_is_near_miss(s: &Stmt) -> (r: bool)
    ensures
        r == is_near_miss(sview(*s)),
{
    match s {
        Stmt::Lit { value, .. } => {
            let vc = chars_of(value.as_str());
            let pc = chars_of("use runner");
            if chars_eq(&vc, &pc) {
                false
            } else {
                near_match(value.as_str(), "use runner")
            }
        },
        _ => false,
    }
}

/// Whether the stripper removes the statement: a recognized or a
/// misspelled directive.
fn stmt_is_directive_like(s: &Stmt) -> (r: bool)
    ensures
        r == is_directive_like(sview(*s)),
{
    if stmt_is_exact(s) {
        true
    } else {
        stmt_is_near_miss(s)
    }
}

/// The literal text and span of a statement known to be a string literal.
fn lit_parts(s: &Stmt) -> (r: (String, Span))
    requires
        sview(*s) is Lit,
    ensures
        r.0@ == lit_value(sview(*s)),
        r.1 == lit_span(sview(*s)),
{
    match s {
        Stmt::Lit { value, span } => (value.clone(), *span),
        _ => {
            proof {
                assert(false);
            }
            (String::new(), Span { lo: 0, hi: 0 })
        },
    }
}

/// Append the diagnostics of one scope to `out`.
fn scope_diagnostics(kind: ScopeKind, ss: &Vec<Stmt>, out: &mut Vec<RunnerErrorKind>)
    ensures
        dviews(final(out)@) == dviews(old(out)@) + scope_diags(kind, sviews(ss@)),
{
    proof {
        lemma_sviews_len(ss@);
        lemma_first_lit(sviews(ss@));
    }
    let ghost sv = sviews(ss@);
    let ghost base = dviews(old(out)@);
    let n = ss.len();
    let is_module = match kind {
        ScopeKind::Module => true,
        _ => false,
    };
    if is_module {
        // Scan forward, flagging every near miss, until the first exact
        // pragma; a non-leading exact pragma is misplaced.
        proof {
            assert(misspelled_before(sv, 0, 0) =~= Seq::<GDiag>::empty());
            assert(dviews(out@) =~= base + misspelled_before(sv, 0, 0));
        }
        let mut j: usize = 0;
        let mut exact_at: usize = n;
        while j < n
            invariant
                sv == sviews(ss@),
                sv.len() == n,
                n == ss@.len(),
                kind is Module,
                base == dviews(old(out)@),
                j <= n,
                exact_at <= n,
                exact_at == n ==> forall|k: int| 0 <= k < j ==> !is_exact(sv[k]),
                exact_at < n ==> exact_at < j && is_exact(sv[exact_at as int]) && (forall|k: int|
                    0 <= k < exact_at ==> !is_exact(sv[k])),
                dviews(out@) == base + misspelled_before(sv, 0, j as int),
            decreases n - j,
        {
            proof {
                lemma_sviews_index(ss@, j as int);
            }
            let s = &ss[j];
            if stmt_is_near_miss(s) {
                let parts = lit_parts(s);
                let ghost prev = out@;
                let d = RunnerErrorKind::MisspelledDirective {
                    span: parts.1,
                    directive: parts.0,
                };
                proof {
                    lemma_dviews_push(prev, d);
                }
                out.push(d);
            } else if stmt_is_exact(s) {
                if exact_at == n {
                    exact_at = j;
                }
            }
            proof {
                lemma_misspelled_before_extend(sv, 0, j as int);
                assert(dviews(out@) =~= base + misspelled_before(sv, 0, j + 1));
            }
            j += 1;
        }
        proof {
            lemma_first_exact_unique(sv, exact_at as int);
        }
        if exact_at > 0 && exact_at < n {
            proof {
                lemma_sviews_index(ss@, exact_at as int);
            }
            let s = &ss[exact_at];
            let parts = lit_parts(s);
            let ghost prev = out@;
            let d = RunnerErrorKind::MisplacedDirective {
                span: parts.1,
                location: DirectiveLocation::Module,
            };
            proof {
                lemma_dviews_push(prev, d);
            }
            out.push(d);
        }
        proof {
            assert(dviews(out@) =~= base + scope_diags(kind, sv));
        }
        return;
    }
    // Function and arrow-body scopes.
    let i = find_first_lit(ss);
    if i == n {
        proof {
            assert(dviews(out@) =~= base + scope_diags(kind, sv));
        }
        return;
    }
    proof {
        lemma_sviews_index(ss@, i as int);
    }
    let c = &ss[i];
    if stmt_is_exact(c) {
        match kind {
            ScopeKind::Function { is_async } => {
                if !is_async {
                    let parts = lit_parts(c);
                    let ghost prev = out@;
                    let d = RunnerErrorKind::NonAsyncFunction { span: parts.1 };
                    proof {
                        lemma_dviews_push(prev, d);
                    }
                    out.push(d);
                }
            },
            _ => {},
        }
    } else if stmt_is_near_miss(c) {
        let parts = lit_parts(c);
        let ghost prev = out@;
        let d = RunnerErrorKind::MisspelledDirective { span: parts.1, directive: parts.0 };
        proof {
            lemma_dviews_push(prev, d);
        }
        out.push(d);
    }
    let ghost head = (if is_exact(sv[i as int]) {
        match kind {
            ScopeKind::Function { is_async } => if !is_async {
                seq![GDiag::NonAsyncFunction { span: lit_span(sv[i as int]) }]
            } else {
                Seq::<GDiag>::empty()
            },
            _ => Seq::<GDiag>::empty(),
        }
    } else if is_near_miss(sv[i as int]) {
        seq![
            GDiag::MisspelledDirective {
                span: lit_span(sv[i as int]),
                directive: lit_value(sv[i as int]),
            },
        ]
    } else {
        Seq::<GDiag>::empty()
    });
    proof {
        assert(dviews(out@) =~= base + head);
    }
    let mut j: usize = i + 1;
    while j < n
        invariant
            sv == sviews(ss@),
            sv.len() == n,
            n == ss@.len(),
            i < n,
            i < j <= n,
            dviews(out@) + trailing_diags(sv, j as int) == base + head + trailing_diags(
                sv,
                i + 1,
            ),
        decreases n - j,
    {
        proof {
            lemma_sviews_index(ss@, j as int);
        }
        let d = &ss[j];
        if stmt_is_exact(d) {
            let parts = lit_parts(d);
            let ghost prev = out@;
            let md = RunnerErrorKind::MisplacedDirective {
                span: parts.1,
                location: DirectiveLocation::FunctionBody,
            };
            proof {
                lemma_dviews_push(prev, md);
            }
            out.push(md);
        } else if stmt_is_near_miss(d) {
            let parts = lit_parts(d);
            let ghost prev = out@;
            let md = RunnerErrorKind::MisspelledDirective {
                span: parts.1,
                directive: parts.0,
            };
            proof {
                lemma_dviews_push(prev, md);
            }
            out.push(md);
        }
        j += 1;
        proof {
            assert(dviews(out@) + trailing_diags(sv, j as int) =~= base + head + trailing_diags(
                sv,
                i + 1,
            ));
        }
    }
    proof {
        assert(trailing_diags(sv, n as int) =~= Seq::<GDiag>::empty());
        assert(dviews(out@) =~= dviews(out@) + trailing_diags(sv, n as int));
        assert(scope_diags(kind, sv) == head + trailing_diags(sv, i + 1));
        assert(dviews(out@) =~= base + scope_diags(kind, sv));
    }
}

/// Append the diagnostics of a statement and everything nested below it.
fn stmt_diagnostics(s: &Stmt, out: &mut Vec<RunnerErrorKind>)
    ensures
        dviews(final(out)@) == dviews(old(out)@) + stmt_diags(sview(*s)),
    decreases *s,
{
    let ghost base = dviews(old(out)@);
    match s {
        Stmt::Lit { .. } => {
            proof {
                assert(dviews(out@) =~= base + stmt_diags(sview(*s)));
            }
        },
        Stmt::Func { is_async, body } => {
            scope_diagnostics(ScopeKind::Function { is_async: *is_async }, body, out);
            stmts_diagnostics(body, out);
            proof {
                assert(dviews(out@) =~= base + stmt_diags(sview(*s)));
            }
        },
        Stmt::Arrow { arrow_body } => {
            scope_diagnostics(ScopeKind::ArrowBody, arrow_body, out);
            stmts_diagnostics(arrow_body, out);
            proof {
                assert(dviews(out@) =~= base + stmt_diags(sview(*s)));
            }
        },
        Stmt::Other { children } => {
            stmts_diagnostics(children, out);
            proof {
                assert(dviews(out@) =~= base + stmt_diags(sview(*s)));
            }
        },
    }
}

/// Append the diagnostics of each statement of `ss`, in order.
fn stmts_diagnostics(ss: &Vec<Stmt>, out: &mut Vec<RunnerErrorKind>)
    ensures
        dviews(final(out)@) == dviews(old(out)@) + stmts_diags(sviews(ss@)),
    decreases ss@,
{
    proof {
        lemma_sviews_len(ss@);
    }
    let ghost sv = sviews(ss@);
    let ghost base = dviews(old(out)@);
    proof {
        assert(sv.skip(0) =~= sv);
    }
    let n = ss.len();
    let mut k: usize = 0;
    while k < n
        invariant
            sv == sviews(ss@),
            sv.len() == n,
            n == ss@.len(),
            k <= n,
            dviews(out@) + stmts_diags(sv.skip(k as int)) == base + stmts_diags(sv),
        decreases n - k,
    {
        proof {
            lemma_sviews_index(ss@, k as int);
            assert(decreases_to!(ss@ => ss@[k as int]));
        }
        stmt_diagnostics(&ss[k], out);
        k += 1;
        proof {
            assert(sv.skip(k - 1).drop_first() =~= sv.skip(k as int));
            assert(sv.skip(k - 1)[0] == sv[k - 1]);
            assert(dviews(out@) + stmts_diags(sv.skip(k as int)) =~= base + stmts_diags(sv));
        }
    }
    proof {
        assert(sv.skip(n as int) =~= Seq::<GStmt>::empty());
        assert(dviews(out@) =~= base + stmts_diags(sv));
    }
}

/// The diagnostics of a whole module, computed against the unmodified tree.
pub fn validate_module(m: &ModuleAst) -> (diags: Vec<RunnerErrorKind>)
    ensures
        dviews(diags@) == module_diags(sviews(m.body@)),
{
    let mut out: Vec<RunnerErrorKind> = Vec::new();
    proof {
        assert(dviews(out@) =~= Seq::<GDiag>::empty());
    }
    scope_diagnostics(ScopeKind::Module, &m.body, &mut out);
    stmts_diagnostics(&m.body, &mut out);
    proof {
        assert(dviews(out@) =~= module_diags(sviews(m.body@)));
    }
    out
}

/// Strip one statement: the scopes it opens lose their recognized and
/// misspelled directives; everything else is kept in place.
fn strip_stmt_exec(s: Stmt) -> (r: Stmt)
    ensures
        sview(r) == strip_stmt(sview(s)),
    decreases s,
{
    match s {
        Stmt::Lit { value, span } => Stmt::Lit { value, span },
        Stmt::Func { is_async, body } => Stmt::Func {
            is_async,
            body: strip_scope_exec(body),
        },
        Stmt::Arrow { arrow_body } => Stmt::Arrow { arrow_body: strip_scope_exec(arrow_body) },
        Stmt::Other { children } => Stmt::Other { children: strip_each_exec(children) },
    }
}

/// Strip a scope's statement list: drop every recognized or misspelled
/// directive, strip each survivor.
fn strip_scope_exec(ss: Vec<Stmt>) -> (r: Vec<Stmt>)
    ensures
        sviews(r@) == strip_scope(sviews(ss@)),
    decreases ss@,
{
    let mut ss = ss;
    if ss.len() == 0 {
        proof {
            assert(sviews(ss@) =~= Seq::<GStmt>::empty());
        }
        return ss;
    }
    let ghost orig = ss@;
    let s = ss.remove(0);
    proof {
        assert(ss@ =~= orig.drop_first());
        assert(decreases_to!(orig => orig[0]));
    }
    proof {
        lemma_sviews_len(orig);
        lemma_sviews_index(orig, 0);
        assert(sviews(orig).drop_first() =~= sviews(orig.drop_first()));
    }
    let keep = !stmt_is_directive_like(&s);
    let rest = strip_scope_exec(ss);
    if keep {
        let head = strip_stmt_exec(s);
        let mut out: Vec<Stmt> = Vec::new();
        out.push(head);
        let mut rest = rest;
        let ghost rest0 = rest@;
        out.append(&mut rest);
        proof {
            assert(out@ =~= seq![head] + rest0);
            lemma_sviews_cons(head, rest0);
            assert(sviews(out@) =~= strip_scope(sviews(orig)));
        }
        out
    } else {
        proof {
            assert(sviews(rest@) =~= strip_scope(sviews(orig)));
        }
        rest
    }
}

/// Strip each statement of a non-scope list, removing none.
fn strip_each_exec(ss: Vec<Stmt>) -> (r: Vec<Stmt>)
    ensures
        sviews(r@) == strip_each(sviews(ss@)),
    decreases ss@,
{
    let mut ss = ss;
    if ss.len() == 0 {
        proof {
            assert(sviews(ss@) =~= Seq::<GStmt>::empty());
        }
        return ss;
    }
    let ghost orig = ss@;
    let s = ss.remove(0);
    proof {
        assert(ss@ =~= orig.drop_first());
        assert(decreases_to!(orig => orig[0]));
    }
    proof {
        lemma_sviews_len(orig);
        lemma_sviews_index(orig, 0);
        assert(sviews(orig).drop_first() =~= sviews(orig.drop_first()));
    }
    let head = strip_stmt_exec(s);
    let rest = strip_each_exec(ss);
    let mut out: Vec<Stmt> = Vec::new();
    out.push(head);
    let mut rest = rest;
    let ghost rest0 = rest@;
    out.append(&mut rest);
    proof {
        assert(out@ =~= seq![head] + rest0);
        lemma_sviews_cons(head, rest0);
        assert(sviews(out@) =~= strip_each(sviews(orig)));
    }
    out
}

/// `sviews` distributes over prepending one statement.
proof fn lemma_sviews_cons(s: Stmt, ss: Seq<Stmt>)
    ensures
        sviews(seq![s] + ss) == seq![sview(s)] + sviews(ss),
{
    let whole = seq![s] + ss;
    assert(whole.len() == ss.len() + 1);
    assert(whole[0] == s);
    assert(whole.drop_first() =~= ss);
}

/// Strip a whole module in place: remove every recognized or misspelled
/// directive from the module scope and from every nested scope.
pub fn strip_module(m: &mut ModuleAst)
    ensures
        sviews(final(m).body@) == strip_scope(sviews(old(m).body@)),
{
    let mut tmp: Vec<Stmt> = Vec::new();
    core::mem::swap(&mut m.body, &mut tmp);
    let stripped = strip_scope_exec(tmp);
    m.body = stripped;
}

/// Validate and then strip a module: the diagnostics are those of the
/// original tree, and the tree left behind is the stripped one.
pub fn transform_module(m: &mut ModuleAst) -> (diags: Vec<RunnerErrorKind>)
    ensures
        dviews(diags@) == module_diags(sviews(old(m).body@)),
        sviews(final(m).body@) == strip_scope(sviews(old(m).body@)),
{
    let diags = validate_module(m);
    strip_module(m);
    diags
}

/// The message text of a diagnostic, as the diagnostic sink renders it.
pub open spec fn message_of(d: GDiag) -> Seq<char> {
    match d {
        GDiag::NonAsyncFunction { .. } => {
            "Functions marked with \"use runner\" must be async functions"@
        },
        GDiag::MisplacedDirective { location, .. } => {
            match location {
                DirectiveLocation::Module => {
                    "The \"use runner\" directive must be at the top of the file"@
                },
                DirectiveLocation::FunctionBody => {
                    "The \"use runner\" directive must be at the top of the function body"@
                },
            }
        },
        GDiag::MisspelledDirective { directive, .. } => {
            "\""@ + directive + "\" looks like a typo. Did you mean \"use runner\"?"@
        },
    }
}

/// The span of a diagnostic.
pub open spec fn span_of(d: GDiag) -> Span {
    match d {
        GDiag::NonAsyncFunction { span } => span,
        GDiag::MisplacedDirective { span, .. } => span,
        GDiag::MisspelledDirective { span, .. } => span,
    }
}

impl RunnerErrorKind {
    /// The diagnostic's message text.
    pub fn message(&self) -> (r: String)
        ensures
            r@ == message_of(dview(*self)),
    {
        match self {
            RunnerErrorKind::NonAsyncFunction { .. } => {
                String::from_str("Functions marked with \"use runner\" must be async functions")
            },
            RunnerErrorKind::MisplacedDirective { location, .. } => {
                match location {
                    DirectiveLocation::Module => {
                        String::from_str(
                            "The \"use runner\" directive must be at the top of the file",
                        )
                    },
                    DirectiveLocation::FunctionBody => {
                        String::from_str(
                            "The \"use runner\" directive must be at the top of the function body",
                        )
                    },
                }
            },
            RunnerErrorKind::MisspelledDirective { directive, .. } => {
                let mut r = String::from_str("\"");
                r.append(directive.as_str());
                r.append("\" looks like a typo. Did you mean \"use runner\"?");
                r
            },
        }
    }

    /// The source span the diagnostic is bound to.
    pub fn span(&self) -> (r: Span)
        ensures
            r == span_of(dview(*self)),
    {
        match self {
            RunnerErrorKind::NonAsyncFunction { span } => *span,
            RunnerErrorKind::MisplacedDirective { span, .. } => *span,
            RunnerErrorKind::MisspelledDirective { span, .. } => *span,
        }
    }
}

/// The directive transform over one file's module tree, keeping the file's
/// name for reporting alongside the diagnostics.
pub struct RunnerTransform {
    pub filename: String,
}

impl RunnerTransform {
    /// A transform for the file of the given (already normalized) name.
    pub fn new(filename: String) -> (r: RunnerTransform)
        ensures
            r.filename@ == filename@,
    {
        RunnerTransform { filename }
    }

    /// Validate and strip the module, returning the diagnostics of the
    /// original tree.
    pub fn transform(&self, m: &mut ModuleAst) -> (diags: Vec<RunnerErrorKind>)
        ensures
            dviews(diags@) == module_diags(sviews(old(m).body@)),
            sviews(final(m).body@) == strip_scope(sviews(old(m).body@)),
    {
        transform_module(m)
    }
}

// ---------------------------------------------------------------------
// Laws of the transform path.
// ---------------------------------------------------------------------
/// A statement no part of which is a recognized or misspelled directive.
pub open spec fn pristine_stmt(s: GStmt) -> bool
    decreases s,
{
    match s {
        GStmt::Lit { .. } => !is_directive_like(s),
        GStmt::Func { body, .. } => pristine_seq(body),
        GStmt::Arrow { arrow_body } => pristine_seq(arrow_body),
        GStmt::Other { children } => pristine_seq(children),
    }
}

/// A statement sequence of pristine statements only.
pub open spec fn pristine_seq(ss: Seq<GStmt>) -> bool
    decreases ss,
{
    ss.len() == 0 || (pristine_stmt(ss[0]) && pristine_seq(ss.drop_first()))
}

proof fn lemma_pristine_seq_index(ss: Seq<GStmt>, j: int)
    requires
        pristine_seq(ss),
        0 <= j < ss.len(),
    ensures
        pristine_stmt(ss[j]),
    decreases ss,
{
    if j > 0 {
        lemma_pristine_seq_index(ss.drop_first(), j - 1);
    }
}

proof fn lemma_pristine_scope_diags(kind: ScopeKind, ss: Seq<GStmt>)
    requires
        pristine_seq(ss),
    ensures
        scope_diags(kind, ss) == Seq::<GDiag>::empty(),
{
    assert forall|k: int| 0 <= k < ss.len() implies !is_exact(ss[k]) && !is_near_miss(
        ss[k],
    ) by {
        lemma_pristine_seq_index(ss, k);
    }
    match kind {
        ScopeKind::Module => {
            lemma_first_exact_unique(ss, ss.len() as int);
            lemma_misspelled_before_empty(ss, 0, ss.len() as int);
            assert(scope_diags(kind, ss) =~= Seq::<GDiag>::empty());
        },
        _ => {
            lemma_first_lit(ss);
            let i = first_lit(ss);
            if i < ss.len() {
                lemma_trailing_diags_empty(ss, i + 1);
                assert(scope_diags(kind, ss) =~= Seq::<GDiag>::empty());
            }
        },
    }
}

proof fn lemma_pristine_stmt_diags(s: GStmt)
    requires
        pristine_stmt(s),
    ensures
        stmt_diags(s) == Seq::<GDiag>::empty(),
    decreases s,
{
    match s {
        GStmt::Lit { .. } => {},
        GStmt::Func { is_async, body } => {
            lemma_pristine_scope_diags(ScopeKind::Function { is_async }, body);
            lemma_pristine_stmts_diags(body);
            assert(stmt_diags(s) =~= Seq::<GDiag>::empty());
        },
        GStmt::Arrow { arrow_body } => {
            lemma_pristine_scope_diags(ScopeKind::ArrowBody, arrow_body);
            lemma_pristine_stmts_diags(arrow_body);
            assert(stmt_diags(s) =~= Seq::<GDiag>::empty());
        },
        GStmt::Other { children } => {
            lemma_pristine_stmts_diags(children);
        },
    }
}

proof fn lemma_pristine_stmts_diags(ss: Seq<GStmt>)
    requires
        pristine_seq(ss),
    ensures
        stmts_diags(ss) == Seq::<GDiag>::empty(),
    decreases ss,
{
    if ss.len() > 0 {
        lemma_pristine_stmt_diags(ss[0]);
        lemma_pristine_stmts_diags(ss.drop_first());
        assert(stmts_diags(ss) =~= Seq::<GDiag>::empty());
    }
}

proof fn lemma_pristine_strip_stmt(s: GStmt)
    requires
        pristine_stmt(s),
    ensures
        strip_stmt(s) == s,
    decreases s,
{
    match s {
        GStmt::Lit { .. } => {},
        GStmt::Func { is_async, body } => {
            lemma_pristine_strip_scope(body);
        },
        GStmt::Arrow { arrow_body } => {
            lemma_pristine_strip_scope(arrow_body);
        },
        GStmt::Other { children } => {
            lemma_pristine_strip_each(children);
        },
    }
}

proof fn lemma_pristine_strip_scope(ss: Seq<GStmt>)
    requires
        pristine_seq(ss),
    ensures
        strip_scope(ss) == ss,
    decreases ss,
{
    if ss.len() > 0 {
        lemma_pristine_strip_stmt(ss[0]);
        lemma_pristine_strip_scope(ss.drop_first());
        assert(strip_scope(ss) =~= ss);
    }
}

proof fn lemma_pristine_strip_each(ss: Seq<GStmt>)
    requires
        pristine_seq(ss),
    ensures
        strip_each(ss) == ss,
    decreases ss,
{
    if ss.len() > 0 {
        lemma_pristine_strip_stmt(ss[0]);
        lemma_pristine_strip_each(ss.drop_first());
        assert(strip_each(ss) =~= ss);
    }
}

/// A module whose first statement is the exact pragma, with nothing
/// directive-like anywhere else, validates without diagnostics, and
/// stripping removes exactly that one statement.
pub proof fn lemma_clean_module_strips_directive_only(body: Seq<GStmt>)
    requires
        body.len() > 0,
        is_exact(body[0]),
        pristine_seq(body.drop_first()),
    ensures
        module_diags(body) == Seq::<GDiag>::empty(),
        strip_scope(body) == body.drop_first(),
{
    lemma_first_exact_unique(body, 0);
    assert forall|k: int| 0 <= k < body.len() implies !is_near_miss(body[k]) by {
        if k > 0 {
            lemma_pristine_seq_index(body.drop_first(), k - 1);
            assert(body.drop_first()[k - 1] == body[k]);
        }
    }
    lemma_misspelled_before_empty(body, 0, body.len() as int);
    assert(scope_diags(ScopeKind::Module, body) =~= Seq::<GDiag>::empty());
    assert(stmt_diags(body[0]) =~= Seq::<GDiag>::empty());
    lemma_pristine_stmts_diags(body.drop_first());
    assert(stmts_diags(body) =~= Seq::<GDiag>::empty());
    assert(module_diags(body) =~= Seq::<GDiag>::empty());
    lemma_pristine_strip_scope(body.drop_first());
}

/// The trailing scan reports only misplaced and misspelled directives,
/// never a NonAsyncFunction diagnostic.
proof fn lemma_trailing_diags_kinds(ss: Seq<GStmt>, j: int)
    ensures
        forall|t: int|
            0 <= t < trailing_diags(ss, j).len() ==> !(#[trigger] trailing_diags(ss, j)[t]
                is NonAsyncFunction),
    decreases ss.len() - j,
{
    if 0 <= j < ss.len() {
        lemma_trailing_diags_kinds(ss, j + 1);
    }
}

/// A non-async function whose first body statement is the exact pragma is
/// flagged with exactly one NonAsyncFunction diagnostic, bound to that
/// statement's span, and the directive is still removed by the stripper.
pub proof fn lemma_non_async_function_flagged_once(body: Seq<GStmt>)
    requires
        body.len() > 0,
        is_exact(body[0]),
    ensures
        non_async_diags(body).len() >= 1,
        non_async_diags(body)[0] == (GDiag::NonAsyncFunction { span: lit_span(body[0]) }),
        forall|t: int|
            (1 <= t < non_async_diags(body).len() ==> !(#[trigger] non_async_diags(body)[t]
                is NonAsyncFunction)),
        strip_scope(body) == strip_scope(body.drop_first()),
{
    lemma_first_lit_unique(body, 0);
    lemma_trailing_diags_kinds(body, 1);
}

/// The diagnostics of a non-async function body's scope.
pub open spec fn non_async_diags(body: Seq<GStmt>) -> Seq<GDiag> {
    scope_diags(ScopeKind::Function { is_async: false }, body)
}

/// The trailing scan reports one misplaced-directive diagnostic for each
/// exact pragma at or after the scan's start.
proof fn lemma_trailing_diags_contains(ss: Seq<GStmt>, j: int, t: int)
    requires
        0 <= j <= t < ss.len(),
        is_exact(ss[t]),
    ensures
        trailing_diags(ss, j).contains(
            GDiag::MisplacedDirective {
                span: lit_span(ss[t]),
                location: DirectiveLocation::FunctionBody,
            },
        ),
    decreases t - j,
{
    let d = GDiag::MisplacedDirective {
        span: lit_span(ss[t]),
        location: DirectiveLocation::FunctionBody,
    };
    if j == t {
        assert(trailing_diags(ss, j)[0] == d);
    } else {
        lemma_trailing_diags_contains(ss, j + 1, t);
        let sub = trailing_diags(ss, j + 1);
        let k = choose|k: int| 0 <= k < sub.len() && sub[k] == d;
        let whole = trailing_diags(ss, j);
        let hl = whole.len() - sub.len();
        assert(whole[hl + k] == d);
    }
}

/// A function body that opens with the exact pragma and repeats it
/// verbatim later is flagged with a misplaced-directive diagnostic for the
/// later occurrence, and both occurrences are removed by the stripper.
pub proof fn lemma_repeated_directive_flagged(body: Seq<GStmt>, is_async: bool, t: int)
    requires
        body.len() > 0,
        is_exact(body[0]),
        0 < t < body.len(),
        is_exact(body[t]),
    ensures
        scope_diags(ScopeKind::Function { is_async }, body).contains(
            GDiag::MisplacedDirective {
                span: lit_span(body[t]),
                location: DirectiveLocation::FunctionBody,
            },
        ),
        forall|k: int|
            0 <= k < strip_scope(body).len() ==> !is_directive_like(
                #[trigger] strip_scope(body)[k],
            ),
{
    lemma_first_lit_unique(body, 0);
    lemma_trailing_diags_contains(body, 1, t);
    let d = GDiag::MisplacedDirective {
        span: lit_span(body[t]),
        location: DirectiveLocation::FunctionBody,
    };
    let dups = trailing_diags(body, 1);
    let k = choose|k: int| 0 <= k < dups.len() && dups[k] == d;
    let ds = scope_diags(ScopeKind::Function { is_async }, body);
    let head_len = ds.len() - dups.len();
    assert(ds[head_len + k] == d);
    lemma_strip_scope_complete(body);
}

/// Every statement of the scope that the stripper keeps is itself free of
/// directives: the premise under which stripping changes nothing but the
/// removals.
pub open spec fn survivors_pristine(ss: Seq<GStmt>) -> bool {
    forall|j: int| 0 <= j < ss.len() ==> is_directive_like(#[trigger] ss[j]) || pristine_stmt(ss[j])
}

/// A scope's statement sequence with the recognized and misspelled
/// directives removed and everything else untouched.
pub open spec fn drop_directives(ss: Seq<GStmt>) -> Seq<GStmt>
    decreases ss,
{
    if ss.len() == 0 {
        Seq::empty()
    } else {
        let rest = drop_directives(ss.drop_first());
        if is_directive_like(ss[0]) {
            rest
        } else {
            seq![ss[0]] + rest
        }
    }
}

/// When every surviving statement is free of directives, stripping a scope
/// removes exactly the directive statements and leaves the others
/// unchanged, in order.
pub proof fn lemma_strip_keeps_pristine_survivors(ss: Seq<GStmt>)
    requires
        survivors_pristine(ss),
    ensures
        strip_scope(ss) == drop_directives(ss),
    decreases ss,
{
    if ss.len() > 0 {
        assert forall|j: int| 0 <= j < ss.drop_first().len() implies is_directive_like(
            #[trigger] ss.drop_first()[j],
        ) || pristine_stmt(ss.drop_first()[j]) by {
            assert(ss.drop_first()[j] == ss[j + 1]);
        }
        lemma_strip_keeps_pristine_survivors(ss.drop_first());
        if !is_directive_like(ss[0]) {
            lemma_pristine_strip_stmt(ss[0]);
            assert(strip_scope(ss) =~= drop_directives(ss));
        }
    }
}

/// A non-async function whose body opens with the exact pragma and holds
/// nothing else directive-like yields exactly the one NonAsyncFunction
/// diagnostic for its scope, and stripping removes exactly that statement.
pub proof fn lemma_non_async_scope_exactly_one(body: Seq<GStmt>)
    requires
        body.len() > 0,
        is_exact(body[0]),
        pristine_seq(body.drop_first()),
    ensures
        non_async_diags(body) == seq![GDiag::NonAsyncFunction { span: lit_span(body[0]) }],
        strip_scope(body) == body.drop_first(),
{
    lemma_first_lit_unique(body, 0);
    assert forall|k: int| 1 <= k < body.len() implies !is_exact(body[k]) && !is_near_miss(
        body[k],
    ) by {
        lemma_pristine_seq_index(body.drop_first(), k - 1);
        assert(body.drop_first()[k - 1] == body[k]);
    }
    lemma_trailing_diags_empty(body, 1);
    assert(non_async_diags(body) =~= seq![GDiag::NonAsyncFunction { span: lit_span(body[0]) }]);
    lemma_pristine_strip_scope(body.drop_first());
}

/// A function body opening with the exact pragma and repeating it verbatim
/// later, whose other statements are free of directives, is flagged for the
/// repetition, and stripping removes exactly the directive statements,
/// keeping the rest unchanged and in order.
pub proof fn lemma_repeated_directive_stripped_exactly(
    body: Seq<GStmt>,
    is_async: bool,
    t: int,
)
    requires
        body.len() > 0,
        is_exact(body[0]),
        0 < t < body.len(),
        is_exact(body[t]),
        survivors_pristine(body),
    ensures
        scope_diags(ScopeKind::Function { is_async }, body).contains(
            GDiag::MisplacedDirective {
                span: lit_span(body[t]),
                location: DirectiveLocation::FunctionBody,
            },
        ),
        strip_scope(body) == drop_directives(body),
{
    lemma_repeated_directive_flagged(body, is_async, t);
    lemma_strip_keeps_pristine_survivors(body);
}

/// No recognized or misspelled directive survives the stripper: the
/// stripped scope holds no directive-like statement.
pub proof fn lemma_strip_scope_complete(ss: Seq<GStmt>)
    ensures
        forall|k: int|
            0 <= k < strip_scope(ss).len() ==> !is_directive_like(
                #[trigger] strip_scope(ss)[k],
            ),
    decreases ss,
{
    if ss.len() > 0 {
        lemma_strip_scope_complete(ss.drop_first());
        let rest = strip_scope(ss.drop_first());
        if !is_directive_like(ss[0]) {
            let head = strip_stmt(ss[0]);
            assert(!is_directive_like(head)) by {
                match ss[0] {
                    GStmt::Lit { .. } => {},
                    GStmt::Func { .. } => {},
                    GStmt::Arrow { .. } => {},
                    GStmt::Other { .. } => {},
                }
            }
            assert forall|k: int| 0 <= k < strip_scope(ss).len() implies !is_directive_like(
                #[trigger] strip_scope(ss)[k],
            ) by {
                if k == 0 {
                    assert(strip_scope(ss)[0] == head);
                } else {
                    assert(strip_scope(ss)[k] == rest[k - 1]);
                }
            }
        }
    }
}

} // verus!
