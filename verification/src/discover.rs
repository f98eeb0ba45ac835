//! The extraction path: discovering exported async runner functions and
//! exported schema declarations in a file's syntax tree.
//!
//! A syntax tree provider parses the file; callers convert its nodes into
//! `TsNode` values (kind tag, byte offset, source-backed text, children) and
//! the engine walks them: a full pre-order traversal in which every exported
//! async function declaration and every exported variable declarator bound
//! to an async arrow function yields a runner record, and every exported
//! declarator whose name contains "schema" (case-insensitively) yields a
//! schema record tied by substring match to the first fitting runner.

use vstd::prelude::*;

use crate::paths::seg_views;
use crate::text::{chars_of, contains_seq, contains_substring, lower_of, lowercase};
use crate::types::{GRunner, GSchema, RunnerInfo, SchemaInfo, rview, rviews, scview, scviews};

verus! {

/// The node kinds the discovery walk distinguishes; every other node of the
/// provider's tree is `Other`.
#[derive(Clone, Copy, PartialEq, Eq, Structural, Debug)]
pub enum NodeKind {
    ExportStatement,
    FunctionDeclaration,
    LexicalDeclaration,
    VariableDeclaration,
    VariableDeclarator,
    ArrowFunction,
    Identifier,
    PropertyIdentifier,
    AsyncKeyword,
    Other,
}

/// One node of the file's tree: its kind, the byte offset its source range
/// starts at, its source text (read only for identifiers), and its children
/// in source order.
#[derive(Debug)]
pub struct TsNode {
    pub kind: NodeKind,
    pub start: usize,
    pub text: String,
    pub children: Vec<TsNode>,
}

/// The mathematical shape of a node.
pub struct GNode {
    pub kind: NodeKind,
    pub start: nat,
    pub text: Seq<char>,
    pub children: Seq<GNode>,
}

/// The abstraction of one node.
pub open spec fn nview(n: TsNode) -> GNode
    decreases n,
{
    GNode { kind: n.kind, start: n.start as nat, text: n.text@, children: nviews(n.children@) }
}

/// The abstraction of a node sequence, element by element.
pub open spec fn nviews(ns: Seq<TsNode>) -> Seq<GNode>
    decreases ns,
{
    if ns.len() == 0 {
        Seq::empty()
    } else {
        seq![nview(ns[0])] + nviews(ns.drop_first())
    }
}

pub proof fn lemma_nviews_len(ns: Seq<TsNode>)
    ensures
        nviews(ns).len() == ns.len(),
    decreases ns,
{
    if ns.len() > 0 {
        lemma_nviews_len(ns.drop_first());
    }
}

pub proof fn lemma_nviews_index(ns: Seq<TsNode>, i: int)
    requires
        0 <= i < ns.len(),
    ensures
        nviews(ns).len() == ns.len(),
        nviews(ns)[i] == nview(ns[i]),
    decreases ns,
{
    lemma_nviews_len(ns);
    if i > 0 {
        lemma_nviews_index(ns.drop_first(), i - 1);
    }
}

/// Every node offset lies within the source: what line computation needs.
pub open spec fn wf_node(n: GNode, limit: nat) -> bool
    decreases n,
{
    n.start <= limit && wf_nodes(n.children, limit)
}

/// Well-formedness of a node sequence.
pub open spec fn wf_nodes(ns: Seq<GNode>, limit: nat) -> bool
    decreases ns,
{
    ns.len() == 0 || (wf_node(ns[0], limit) && wf_nodes(ns.drop_first(), limit))
}

pub proof fn lemma_wf_nodes_index(ns: Seq<GNode>, limit: nat, i: int)
    requires
        wf_nodes(ns, limit),
        0 <= i < ns.len(),
    ensures
        wf_node(ns[i], limit),
    decreases ns,
{
    if i > 0 {
        lemma_wf_nodes_index(ns.drop_first(), limit, i - 1);
    }
}

/// The number of newline bytes in a byte sequence.
pub open spec fn count_newlines(s: Seq<u8>) -> nat
    decreases s,
{
    if s.len() == 0 {
        0
    } else {
        count_newlines(s.drop_last()) + if s.last() == 10 {
            1nat
        } else {
            0nat
        }
    }
}

/// The 1-based line a byte offset falls on: one more than the newlines
/// preceding it.
pub open spec fn line_of(src: Seq<u8>, start: int) -> nat
    recommends
        0 <= start <= src.len(),
{
    count_newlines(src.take(start)) + 1
}

/// The 1-based line number of a byte offset, by counting the newline bytes
/// of the source before it.
pub fn line_number(source: &Vec<u8>, start: usize) -> (r: usize)
    requires
        start <= source@.len(),
        source@.len() < usize::MAX,
    ensures
        r as nat == line_of(source@, start as int),
{
    let mut count: usize = 0;
    let mut i: usize = 0;
    while i < start
        invariant
            start <= source@.len(),
            source@.len() < usize::MAX,
            i <= start,
            count <= i,
            count as nat == count_newlines(source@.take(i as int)),
        decreases start - i,
    {
        if source[i] == 10 {
            count += 1;
        }
        i += 1;
        proof {
            assert(source@.take(i as int).drop_last() =~= source@.take(i - 1));
            assert(source@.take(i as int).last() == source@[i - 1]);
        }
    }
    count + 1
}

/// The node has a direct async-modifier child.
pub open spec fn has_async_child(n: GNode) -> bool {
    exists|i: int| 0 <= i < n.children.len() && n.children[i].kind == NodeKind::AsyncKeyword
}

/// Whether the node has a direct async-modifier child.
fn has_async_child_exec(n: &TsNode) -> (r: bool)
    ensures
        r == has_async_child(nview(*n)),
{
    proof {
        lemma_nviews_len(n.children@);
    }
    let m = n.children.len();
    let mut i: usize = 0;
    while i < m
        invariant
            m == n.children@.len(),
            i <= m,
            forall|j: int|
                0 <= j < i ==> (#[trigger] nviews(n.children@)[j]).kind != NodeKind::AsyncKeyword,
        decreases m - i,
    {
        proof {
            lemma_nviews_index(n.children@, i as int);
        }
        let k = n.children[i].kind;
        if k == NodeKind::AsyncKeyword {
            return true;
        }
        i += 1;
    }
    false
}

/// An identifier kind: a plain or member-style identifier.
pub open spec fn is_ident_kind(k: NodeKind) -> bool {
    k == NodeKind::Identifier || k == NodeKind::PropertyIdentifier
}

/// Whether the kind names an identifier node.
fn is_ident_kind_exec(k: NodeKind) -> (r: bool)
    ensures
        r == is_ident_kind(k),
{
    k == NodeKind::Identifier || k == NodeKind::PropertyIdentifier
}

/// A declaration kind: a `const`/`let`-style or `var`-style declaration.
pub open spec fn is_decl_kind(k: NodeKind) -> bool {
    k == NodeKind::LexicalDeclaration || k == NodeKind::VariableDeclaration
}

/// The index of a node's first identifier child, or its child count.
pub open spec fn first_ident(cs: Seq<GNode>) -> int
    decreases cs,
{
    if cs.len() == 0 {
        0
    } else if is_ident_kind(cs[0].kind) {
        0
    } else {
        1 + first_ident(cs.drop_first())
    }
}

proof fn lemma_first_ident_unique(cs: Seq<GNode>, k: int)
    requires
        0 <= k <= cs.len(),
        forall|j: int| 0 <= j < k ==> !is_ident_kind((#[trigger] cs[j]).kind),
        k < cs.len() ==> is_ident_kind(cs[k].kind),
    ensures
        first_ident(cs) == k,
    decreases cs,
{
    if cs.len() > 0 && !is_ident_kind(cs[0].kind) {
        assert(forall|j: int| 0 <= j < k - 1 ==> cs.drop_first()[j] == cs[j + 1]);
        lemma_first_ident_unique(cs.drop_first(), k - 1);
    }
}

/// The index of the node's first identifier child, or its child count.
fn first_ident_exec(children: &Vec<TsNode>) -> (r: usize)
    ensures
        r as int == first_ident(nviews(children@)),
        r <= children@.len(),
{
    proof {
        lemma_nviews_len(children@);
    }
    let m = children.len();
    let mut i: usize = 0;
    while i < m
        invariant
            m == children@.len(),
            i <= m,
            forall|j: int|
                0 <= j < i ==> !is_ident_kind((#[trigger] nviews(children@)[j]).kind),
        decreases m - i,
    {
        proof {
            lemma_nviews_index(children@, i as int);
        }
        if is_ident_kind_exec(children[i].kind) {
            proof {
                lemma_first_ident_unique(nviews(children@), i as int);
            }
            return i;
        }
        i += 1;
    }
    proof {
        lemma_first_ident_unique(nviews(children@), m as int);
    }
    m
}

/// The name a declarator binds: the text of its leading identifier child.
pub open spec fn declarator_name(d: GNode) -> Option<Seq<char>> {
    if d.children.len() > 0 && is_ident_kind(d.children[0].kind) {
        Some(d.children[0].text)
    } else {
        None
    }
}

/// The name a declarator binds, if its first child is an identifier.
fn declarator_name_exec(d: &TsNode) -> (r: Option<String>)
    ensures
        (r is Some) == (declarator_name(nview(*d)) is Some),
        r matches Some(s) ==> declarator_name(nview(*d)) == Some(s@),
{
    proof {
        lemma_nviews_len(d.children@);
    }
    if d.children.len() > 0 {
        proof {
            lemma_nviews_index(d.children@, 0);
        }
        if is_ident_kind_exec(d.children[0].kind) {
            return Some(d.children[0].text.clone());
        }
        return None;
    }
    None
}

/// The runner records of one exported function declaration: one record when
/// the function carries an async modifier and has an identifier child.
pub open spec fn func_runners(n: GNode, exported: bool, src: Seq<u8>) -> Seq<GRunner> {
    if exported && has_async_child(n) && first_ident(n.children) < n.children.len() {
        seq![
            GRunner {
                name: n.children[first_ident(n.children)].text,
                line: line_of(src, n.start as int),
            },
        ]
    } else {
        Seq::empty()
    }
}

/// The runner records of one declarator's children from index `j` on: one
/// record per arrow-function child that is async directly or through the
/// declaration node, when the declarator binds an identifier.
pub open spec fn declarator_runners_from(d: GNode, decl: GNode, src: Seq<u8>, j: int) -> Seq<
    GRunner,
>
    decreases d.children.len() - j,
{
    if j < 0 || j >= d.children.len() {
        Seq::empty()
    } else {
        let rest = declarator_runners_from(d, decl, src, j + 1);
        if d.children[j].kind == NodeKind::ArrowFunction && (has_async_child(d.children[j])
            || has_async_child(decl)) && declarator_name(d) is Some {
            seq![
                GRunner {
                    name: declarator_name(d)->Some_0,
                    line: line_of(src, decl.start as int),
                },
            ] + rest
        } else {
            rest
        }
    }
}

/// The runner records of one exported declaration's declarators from index
/// `i` on.
pub open spec fn decl_runners_from(decl: GNode, src: Seq<u8>, i: int) -> Seq<GRunner>
    decreases decl.children.len() - i,
{
    if i < 0 || i >= decl.children.len() {
        Seq::empty()
    } else {
        let here = if decl.children[i].kind == NodeKind::VariableDeclarator {
            declarator_runners_from(decl.children[i], decl, src, 0)
        } else {
            Seq::empty()
        };
        here + decl_runners_from(decl, src, i + 1)
    }
}

/// The runner records one node contributes, before its children are walked.
pub open spec fn node_runners(n: GNode, exported: bool, src: Seq<u8>) -> Seq<GRunner> {
    if n.kind == NodeKind::FunctionDeclaration {
        func_runners(n, exported, src)
    } else if is_decl_kind(n.kind) && exported {
        decl_runners_from(n, src, 0)
    } else {
        Seq::empty()
    }
}

/// The runner records of a whole subtree, in pre-order: the node's own,
/// then its children's, with export-ness inherited from any ancestor
/// export statement.
pub open spec fn runners_of(n: GNode, under_export: bool, src: Seq<u8>) -> Seq<GRunner>
    decreases n,
{
    let exported = under_export || n.kind == NodeKind::ExportStatement;
    node_runners(n, exported, src) + runners_in(n.children, exported, src)
}

/// The runner records of a node sequence, in order.
pub open spec fn runners_in(ns: Seq<GNode>, under_export: bool, src: Seq<u8>) -> Seq<GRunner>
    decreases ns,
{
    if ns.len() == 0 {
        Seq::empty()
    } else {
        runners_of(ns[0], under_export, src) + runners_in(ns.drop_first(), under_export, src)
    }
}

/// Append the runner records of one exported declaration node.
fn collect_decl_runners(source: &Vec<u8>, decl: &TsNode, out: &mut Vec<RunnerInfo>)
    requires
        nview(*decl).start <= source@.len(),
        source@.len() < usize::MAX,
    ensures
        rviews(final(out)@) == rviews(old(out)@) + decl_runners_from(nview(*decl), source@, 0),
{
    proof {
        lemma_nviews_len(decl.children@);
    }
    let ghost base = rviews(old(out)@);
    let ghost dv = nview(*decl);
    let m = decl.children.len();
    let mut i: usize = 0;
    while i < m
        invariant
            m == decl.children@.len(),
            dv == nview(*decl),
            dv.children.len() == m,
            i <= m,
            source@.len() < usize::MAX,
            dv.start <= source@.len(),
            rviews(out@) + decl_runners_from(dv, source@, i as int) == base + decl_runners_from(
                dv,
                source@,
                0,
            ),
        decreases m - i,
    {
        proof {
            lemma_nviews_index(decl.children@, i as int);
        }
        let d = &decl.children[i];
        let is_declarator = d.kind == NodeKind::VariableDeclarator;
        if is_declarator {
            let ghost gd = nview(*d);
            proof {
                lemma_nviews_len(d.children@);
            }
            let mc = d.children.len();
            let mut j: usize = 0;
            while j < mc
                invariant
                    mc == d.children@.len(),
                    gd == nview(*d),
                    gd.children.len() == mc,
                    dv == nview(*decl),
                    j <= mc,
                    source@.len() < usize::MAX,
                    dv.start <= source@.len(),
                    rviews(out@) + declarator_runners_from(gd, dv, source@, j as int)
                        + decl_runners_from(dv, source@, i + 1) == base + decl_runners_from(
                        dv,
                        source@,
                        0,
                    ),
                decreases mc - j,
            {
                proof {
                    lemma_nviews_index(d.children@, j as int);
                }
                let v = &d.children[j];
                let is_arrow = v.kind == NodeKind::ArrowFunction;
                if is_arrow {
                    let is_async = if has_async_child_exec(v) {
                        true
                    } else {
                        has_async_child_exec(decl)
                    };
                    if is_async {
                        let named = declarator_name_exec(d);
                        match named {
                            Some(name) => {
                                let line = line_number(source, decl.start);
                                let ghost prev = out@;
                                out.push(RunnerInfo { name, line });
                                proof {
                                    assert(rviews(out@) =~= rviews(prev).push(
                                        rview(out@[prev.len() as int]),
                                    ));
                                    assert(rviews(out@) + declarator_runners_from(
                                        gd,
                                        dv,
                                        source@,
                                        j + 1,
                                    ) + decl_runners_from(dv, source@, i + 1) =~= base
                                        + decl_runners_from(dv, source@, 0));
                                }
                            },
                            None => {
                                proof {
                                    assert(declarator_runners_from(gd, dv, source@, j as int)
                                        == declarator_runners_from(gd, dv, source@, j + 1));
                                }
                            },
                        }
                    }
                }
                j += 1;
            }
            proof {
                assert(declarator_runners_from(gd, dv, source@, mc as int)
                    =~= Seq::<GRunner>::empty());
                assert(rviews(out@) + decl_runners_from(dv, source@, i + 1) =~= base
                    + decl_runners_from(dv, source@, 0));
            }
        }
        i += 1;
    }
    proof {
        assert(decl_runners_from(dv, source@, m as int) =~= Seq::<GRunner>::empty());
        assert(rviews(out@) =~= base + decl_runners_from(dv, source@, 0));
    }
}

/// Append the runner records of a subtree.
fn collect_runners(source: &Vec<u8>, n: &TsNode, under_export: bool, out: &mut Vec<RunnerInfo>)
    requires
        wf_node(nview(*n), source@.len() as nat),
        source@.len() < usize::MAX,
    ensures
        rviews(final(out)@) == rviews(old(out)@) + runners_of(nview(*n), under_export, source@),
    decreases *n,
{
    let ghost base = rviews(old(out)@);
    let ghost gn = nview(*n);
    let exported = under_export || n.kind == NodeKind::ExportStatement;
    let is_func = n.kind == NodeKind::FunctionDeclaration;
    let is_decl = n.kind == NodeKind::LexicalDeclaration || n.kind
        == NodeKind::VariableDeclaration;
    if is_func {
        if exported && has_async_child_exec(n) {
            let i = first_ident_exec(&n.children);
            proof {
                lemma_nviews_len(n.children@);
            }
            if i < n.children.len() {
                proof {
                    lemma_nviews_index(n.children@, i as int);
                }
                let name = n.children[i].text.clone();
                let line = line_number(source, n.start);
                let ghost prev = out@;
                out.push(RunnerInfo { name, line });
                proof {
                    assert(rviews(out@) =~= rviews(prev).push(rview(out@[prev.len() as int])));
                    assert(rviews(out@) =~= base + node_runners(gn, exported, source@));
                }
            } else {
                proof {
                    assert(rviews(out@) =~= base + node_runners(gn, exported, source@));
                }
            }
        } else {
            proof {
                assert(rviews(out@) =~= base + node_runners(gn, exported, source@));
            }
        }
    } else if is_decl && exported {
        collect_decl_runners(source, n, out);
    } else {
        proof {
            assert(rviews(out@) =~= base + node_runners(gn, exported, source@));
        }
    }
    collect_runners_in(source, &n.children, exported, out);
    proof {
        assert(rviews(out@) =~= base + runners_of(gn, under_export, source@));
    }
}

/// Append the runner records of each node of a sequence, in order.
fn collect_runners_in(
    source: &Vec<u8>,
    ns: &Vec<TsNode>,
    under_export: bool,
    out: &mut Vec<RunnerInfo>,
)
    requires
        wf_nodes(nviews(ns@), source@.len() as nat),
        source@.len() < usize::MAX,
    ensures
        rviews(final(out)@) == rviews(old(out)@) + runners_in(nviews(ns@), under_export, source@),
    decreases ns@,
{
    proof {
        lemma_nviews_len(ns@);
    }
    let ghost base = rviews(old(out)@);
    let ghost nv = nviews(ns@);
    proof {
        assert(nv.skip(0) =~= nv);
    }
    let m = ns.len();
    let mut k: usize = 0;
    while k < m
        invariant
            m == ns@.len(),
            nv == nviews(ns@),
            nv.len() == m,
            k <= m,
            source@.len() < usize::MAX,
            wf_nodes(nv, source@.len() as nat),
            rviews(out@) + runners_in(nv.skip(k as int), under_export, source@) == base
                + runners_in(nv, under_export, source@),
        decreases m - k,
    {
        proof {
            lemma_nviews_index(ns@, k as int);
            lemma_wf_nodes_index(nv, source@.len() as nat, k as int);
            assert(decreases_to!(ns@ => ns@[k as int]));
        }
        collect_runners(source, &ns[k], under_export, out);
        k += 1;
        proof {
            assert(nv.skip(k - 1).drop_first() =~= nv.skip(k as int));
            assert(nv.skip(k - 1)[0] == nv[k - 1]);
            assert(rviews(out@) + runners_in(nv.skip(k as int), under_export, source@) =~= base
                + runners_in(nv, under_export, source@));
        }
    }
    proof {
        assert(nv.skip(m as int) =~= Seq::<GNode>::empty());
        assert(rviews(out@) =~= base + runners_in(nv, under_export, source@));
    }
}

/// The exported async runners of a whole file tree, in pre-order.
pub fn find_exported_runners(source: &Vec<u8>, tree: &TsNode) -> (r: Vec<RunnerInfo>)
    requires
        wf_node(nview(*tree), source@.len() as nat),
        source@.len() < usize::MAX,
    ensures
        rviews(r@) == runners_of(nview(*tree), false, source@),
{
    let mut out: Vec<RunnerInfo> = Vec::new();
    proof {
        assert(rviews(out@) =~= Seq::<GRunner>::empty());
    }
    collect_runners(source, tree, false, &mut out);
    proof {
        assert(rviews(out@) =~= runners_of(nview(*tree), false, source@));
    }
    out
}

/// A schema name: one whose lowercase form contains "schema".
pub open spec fn is_schema_name(name: Seq<char>) -> bool {
    contains_seq(lower_of(name), "schema"@)
}

/// Whether the name is a schema name, by lowercasing it and searching for
/// the marker substring.
fn schema_name_check(name: &String) -> (r: bool)
    ensures
        r == is_schema_name(name@),
{
    let lower = lowercase(name.as_str());
    let lc = chars_of(lower.as_str());
    let needle = chars_of("schema");
    contains_substring(&lc, &needle)
}

/// The first name of the list whose lowercase form is contained in the
/// lowercase form of `name`, in list order. The comparison ignores case so
/// that naming conventions (a `fetchData` runner described by a
/// `FetchDataSchema` schema) associate as intended.
pub open spec fn first_runner_match(names: Seq<Seq<char>>, name: Seq<char>) -> Option<Seq<char>>
    decreases names,
{
    if names.len() == 0 {
        None
    } else if contains_seq(lower_of(name), lower_of(names[0])) {
        Some(names[0])
    } else {
        first_runner_match(names.drop_first(), name)
    }
}

/// The first runner name contained (ignoring case) in the schema's name,
/// in discovery order.
fn first_runner_match_exec(names: &Vec<String>, name: &String) -> (r: Option<String>)
    ensures
        (r is Some) == (first_runner_match(seg_views(names@), name@) is Some),
        r matches Some(s) ==> first_runner_match(seg_views(names@), name@) == Some(s@),
{
    let ghost nv = seg_views(names@);
    proof {
        assert(nv.skip(0) =~= nv);
    }
    let name_lower = lowercase(name.as_str());
    let name_chars = chars_of(name_lower.as_str());
    let m = names.len();
    let mut i: usize = 0;
    while i < m
        invariant
            m == names@.len(),
            nv == seg_views(names@),
            nv.len() == m,
            i <= m,
            name_chars@ == lower_of(name@),
            first_runner_match(nv.skip(i as int), name@) == first_runner_match(nv, name@),
        decreases m - i,
    {
        let cand_lower = lowercase(names[i].as_str());
        let cand = chars_of(cand_lower.as_str());
        proof {
            assert(nv.skip(i as int)[0] == nv[i as int]);
            assert(nv.skip(i as int).drop_first() =~= nv.skip(i + 1));
        }
        if contains_substring(&name_chars, &cand) {
            return Some(names[i].clone());
        }
        i += 1;
    }
    proof {
        assert(nv.skip(m as int) =~= Seq::<Seq<char>>::empty());
    }
    None
}

/// The schema records of one exported declaration's declarators from index
/// `i` on: one record per declarator binding a schema name.
pub open spec fn decl_schemas_from(
    decl: GNode,
    names: Seq<Seq<char>>,
    src: Seq<u8>,
    i: int,
) -> Seq<GSchema>
    decreases decl.children.len() - i,
{
    if i < 0 || i >= decl.children.len() {
        Seq::empty()
    } else {
        let rest = decl_schemas_from(decl, names, src, i + 1);
        let d = decl.children[i];
        if d.kind == NodeKind::VariableDeclarator && declarator_name(d) is Some && is_schema_name(
            declarator_name(d)->Some_0,
        ) {
            seq![
                GSchema {
                    name: declarator_name(d)->Some_0,
                    runner_name: first_runner_match(names, declarator_name(d)->Some_0),
                    line: line_of(src, decl.start as int),
                },
            ] + rest
        } else {
            rest
        }
    }
}

/// The schema records one node contributes, before its children are walked.
pub open spec fn node_schemas(
    n: GNode,
    exported: bool,
    names: Seq<Seq<char>>,
    src: Seq<u8>,
) -> Seq<GSchema> {
    if is_decl_kind(n.kind) && exported {
        decl_schemas_from(n, names, src, 0)
    } else {
        Seq::empty()
    }
}

/// The schema records of a whole subtree, in pre-order.
pub open spec fn schemas_of(
    n: GNode,
    under_export: bool,
    names: Seq<Seq<char>>,
    src: Seq<u8>,
) -> Seq<GSchema>
    decreases n,
{
    let exported = under_export || n.kind == NodeKind::ExportStatement;
    node_schemas(n, exported, names, src) + schemas_in(n.children, exported, names, src)
}

/// The schema records of a node sequence, in order.
pub open spec fn schemas_in(
    ns: Seq<GNode>,
    under_export: bool,
    names: Seq<Seq<char>>,
    src: Seq<u8>,
) -> Seq<GSchema>
    decreases ns,
{
    if ns.len() == 0 {
        Seq::empty()
    } else {
        schemas_of(ns[0], under_export, names, src) + schemas_in(
            ns.drop_first(),
            under_export,
            names,
            src,
        )
    }
}

/// Append the schema records of one exported declaration node.
fn collect_decl_schemas(
    source: &Vec<u8>,
    decl: &TsNode,
    names: &Vec<String>,
    out: &mut Vec<SchemaInfo>,
)
    requires
        nview(*decl).start <= source@.len(),
        source@.len() < usize::MAX,
    ensures
        scviews(final(out)@) == scviews(old(out)@) + decl_schemas_from(
            nview(*decl),
            seg_views(names@),
            source@,
            0,
        ),
{
    proof {
        lemma_nviews_len(decl.children@);
    }
    let ghost base = scviews(old(out)@);
    let ghost dv = nview(*decl);
    let ghost nmv = seg_views(names@);
    let m = decl.children.len();
    let mut i: usize = 0;
    while i < m
        invariant
            m == decl.children@.len(),
            dv == nview(*decl),
            nmv == seg_views(names@),
            dv.children.len() == m,
            i <= m,
            source@.len() < usize::MAX,
            dv.start <= source@.len(),
            scviews(out@) + decl_schemas_from(dv, nmv, source@, i as int) == base
                + decl_schemas_from(dv, nmv, source@, 0),
        decreases m - i,
    {
        proof {
            lemma_nviews_index(decl.children@, i as int);
        }
        let d = &decl.children[i];
        let is_declarator = d.kind == NodeKind::VariableDeclarator;
        if is_declarator {
            let named = declarator_name_exec(d);
            match named {
                Some(name) => {
                    if schema_name_check(&name) {
                        let runner_name = first_runner_match_exec(names, &name);
                        let line = line_number(source, decl.start);
                        let ghost prev = out@;
                        out.push(SchemaInfo { name, runner_name, line });
                        proof {
                            assert(scviews(out@) =~= scviews(prev).push(
                                scview(out@[prev.len() as int]),
                            ));
                            assert(scviews(out@) + decl_schemas_from(dv, nmv, source@, i + 1)
                                =~= base + decl_schemas_from(dv, nmv, source@, 0));
                        }
                    }
                },
                None => {},
            }
        }
        i += 1;
    }
    proof {
        assert(decl_schemas_from(dv, nmv, source@, m as int) =~= Seq::<GSchema>::empty());
        assert(scviews(out@) =~= base + decl_schemas_from(dv, nmv, source@, 0));
    }
}

/// Append the schema records of a subtree.
fn collect_schemas(
    source: &Vec<u8>,
    n: &TsNode,
    under_export: bool,
    names: &Vec<String>,
    out: &mut Vec<SchemaInfo>,
)
    requires
        wf_node(nview(*n), source@.len() as nat),
        source@.len() < usize::MAX,
    ensures
        scviews(final(out)@) == scviews(old(out)@) + schemas_of(
            nview(*n),
            under_export,
            seg_views(names@),
            source@,
        ),
    decreases *n,
{
    let ghost base = scviews(old(out)@);
    let ghost gn = nview(*n);
    let exported = under_export || n.kind == NodeKind::ExportStatement;
    let is_decl = n.kind == NodeKind::LexicalDeclaration || n.kind
        == NodeKind::VariableDeclaration;
    if is_decl && exported {
        collect_decl_schemas(source, n, names, out);
    } else {
        proof {
            assert(scviews(out@) =~= base + node_schemas(gn, exported, seg_views(names@), source@));
        }
    }
    collect_schemas_in(source, &n.children, exported, names, out);
    proof {
        assert(scviews(out@) =~= base + schemas_of(gn, under_export, seg_views(names@), source@));
    }
}

/// Append the schema records of each node of a sequence, in order.
fn collect_schemas_in(
    source: &Vec<u8>,
    ns: &Vec<TsNode>,
    under_export: bool,
    names: &Vec<String>,
    out: &mut Vec<SchemaInfo>,
)
    requires
        wf_nodes(nviews(ns@), source@.len() as nat),
        source@.len() < usize::MAX,
    ensures
        scviews(final(out)@) == scviews(old(out)@) + schemas_in(
            nviews(ns@),
            under_export,
            seg_views(names@),
            source@,
        ),
    decreases ns@,
{
    proof {
        lemma_nviews_len(ns@);
    }
    let ghost base = scviews(old(out)@);
    let ghost nv = nviews(ns@);
    let ghost nmv = seg_views(names@);
    proof {
        assert(nv.skip(0) =~= nv);
    }
    let m = ns.len();
    let mut k: usize = 0;
    while k < m
        invariant
            m == ns@.len(),
            nv == nviews(ns@),
            nmv == seg_views(names@),
            nv.len() == m,
            k <= m,
            source@.len() < usize::MAX,
            wf_nodes(nv, source@.len() as nat),
            scviews(out@) + schemas_in(nv.skip(k as int), under_export, nmv, source@) == base
                + schemas_in(nv, under_export, nmv, source@),
        decreases m - k,
    {
        proof {
            lemma_nviews_index(ns@, k as int);
            lemma_wf_nodes_index(nv, source@.len() as nat, k as int);
            assert(decreases_to!(ns@ => ns@[k as int]));
        }
        collect_schemas(source, &ns[k], under_export, names, out);
        k += 1;
        proof {
            assert(nv.skip(k - 1).drop_first() =~= nv.skip(k as int));
            assert(nv.skip(k - 1)[0] == nv[k - 1]);
            assert(scviews(out@) + schemas_in(nv.skip(k as int), under_export, nmv, source@) =~= base
                + schemas_in(nv, under_export, nmv, source@));
        }
    }
    proof {
        assert(nv.skip(m as int) =~= Seq::<GNode>::empty());
        assert(scviews(out@) =~= base + schemas_in(nv, under_export, nmv, source@));
    }
}

/// The exported schema declarations of a whole file tree, in pre-order,
/// each associated with the first discovered runner whose name its own
/// name contains.
pub fn find_exported_schemas(
    source: &Vec<u8>,
    tree: &TsNode,
    runner_names: &Vec<String>,
) -> (r: Vec<SchemaInfo>)
    requires
        wf_node(nview(*tree), source@.len() as nat),
        source@.len() < usize::MAX,
    ensures
        scviews(r@) == schemas_of(nview(*tree), false, seg_views(runner_names@), source@),
{
    let mut out: Vec<SchemaInfo> = Vec::new();
    proof {
        assert(scviews(out@) =~= Seq::<GSchema>::empty());
    }
    collect_schemas(source, tree, false, runner_names, &mut out);
    proof {
        assert(scviews(out@) =~= schemas_of(nview(*tree), false, seg_views(runner_names@), source@));
    }
    out
}

} // verus!
