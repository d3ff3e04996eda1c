//! What holds of every document, tree and diagram.
//!
//! Each proof function here states one law over the spec functions that the
//! contracts of the library are written in, and proves it.

use vstd::prelude::*;
use crate::grammar::is_visibility_marker;
use crate::parser::{
    apply, arrow_style, assemble, collect, collect_first, has_classifier, member_core, member_of,
    parse_outcome, split, statement_of, yields, ParseError, StmtView,
};
use crate::recognizer::parse_tree;
use crate::tree::{NodeView, Rule};
use crate::types::{
    visibility_of, ClassView, Diagram, DiagramView, LineStyle, MemberView, RelationKind,
    RelationView, Visibility,
};

verus! {

/// Each of the four visibility markers stands for its own access level, and
/// every other character for none: decoding has exactly five outcomes.
pub proof fn visibility_is_total(c: char)
    ensures
        c == '+' <==> visibility_of(c) == Visibility::Public,
        c == '-' <==> visibility_of(c) == Visibility::Private,
        c == '#' <==> visibility_of(c) == Visibility::Protected,
        c == '~' <==> visibility_of(c) == Visibility::Package,
        !is_visibility_marker(c) <==> visibility_of(c) == Visibility::Unspecified,
{
}

/// Whether `rule` is one of the arrows.
pub open spec fn is_arrow(rule: Rule) -> bool {
    rule == Rule::Aggregation || rule == Rule::Composition || rule == Rule::Inheritance || rule
        == Rule::Dependency || rule == Rule::Realization || rule == Rule::Link || rule
        == Rule::Association
}

/// The table of arrows: each arrow stands for its own kind and line, and
/// every rule that is no arrow for a dependency drawn solid.
pub proof fn arrow_table_is_exact(rule: Rule)
    ensures
        rule == Rule::Aggregation ==> arrow_style(rule) == (
            RelationKind::Aggregation,
            LineStyle::Solid,
        ),
        rule == Rule::Composition ==> arrow_style(rule) == (
            RelationKind::Composition,
            LineStyle::Solid,
        ),
        rule == Rule::Inheritance ==> arrow_style(rule) == (
            RelationKind::Extension,
            LineStyle::Solid,
        ),
        rule == Rule::Dependency ==> arrow_style(rule) == (
            RelationKind::Dependency,
            LineStyle::Dotted,
        ),
        rule == Rule::Realization ==> arrow_style(rule) == (
            RelationKind::Dependency,
            LineStyle::Dotted,
        ),
        rule == Rule::Link || rule == Rule::Association ==> arrow_style(rule) == (
            RelationKind::Dependency,
            LineStyle::Solid,
        ),
        !is_arrow(rule) ==> arrow_style(rule) == (RelationKind::Dependency, LineStyle::Solid),
{
}

/// Parsing is a function of the document: two parses of the same text give
/// the same diagram, or the same error. Diagrams are compared by their
/// models, in which the order of namespaces and of classes plays no part.
pub proof fn parse_is_deterministic(
    text: Seq<char>,
    first: Result<Diagram, ParseError>,
    second: Result<Diagram, ParseError>,
)
    requires
        yields(first, parse_outcome(text)),
        yields(second, parse_outcome(text)),
    ensures
        match (first, second) {
            (Ok(a), Ok(b)) => a@ == b@,
            (Err(a), Err(b)) => a@ == b@,
            _ => false,
        },
{
}

/// A class statement replaces: the class under the declared name is the
/// declared class, whatever stood under that name before.
pub proof fn class_statement_replaces(d: DiagramView, c: ClassView)
    ensures
        apply(d, StmtView::Class(c)).namespaces.contains_key(split(c.name).0),
        apply(d, StmtView::Class(c)).namespaces[split(c.name).0].classes.contains_key(
            split(c.name).1,
        ),
        apply(d, StmtView::Class(c)).namespaces[split(c.name).0].classes[split(c.name).1] == c,
{
}

/// A member that is declared before its class is dropped: the member
/// statement leaves no trace once the class statement is applied.
pub proof fn member_before_class_is_dropped(
    d: DiagramView,
    target: Seq<char>,
    member: MemberView,
    c: ClassView,
)
    requires
        split(target) == split(c.name),
    ensures
        apply(apply(d, StmtView::Member { target, member }), StmtView::Class(c)) == apply(
            d,
            StmtView::Class(c),
        ),
{
    let (ns, name) = split(c.name);
    let after_member = apply(d, StmtView::Member { target, member });
    let left = apply(after_member, StmtView::Class(c));
    let right = apply(d, StmtView::Class(c));
    assert(left.namespaces[ns].classes =~= right.namespaces[ns].classes);
    assert(left.namespaces =~= right.namespaces);
}

/// A member built from the bodies among `parts` carries the markers it was
/// built under.
pub proof fn lemma_core_carries_markers(
    parts: Seq<NodeView>,
    visibility: Visibility,
    is_static: bool,
    is_abstract: bool,
)
    ensures
        match member_core(parts, visibility, is_static, is_abstract) {
            Ok(Some(MemberView::Attribute(a))) => a.visibility == visibility && a.is_static
                == is_static,
            Ok(Some(MemberView::Method(m))) => m.visibility == visibility && m.is_static
                == is_static && m.is_abstract == is_abstract,
            _ => true,
        },
    decreases parts.len(),
{
    if parts.len() > 0 {
        lemma_core_carries_markers(parts.drop_last(), visibility, is_static, is_abstract);
    }
}

/// The two classifiers are independent: a method is static exactly where
/// its declaration holds the classifier `$`, and abstract exactly where it
/// holds the classifier `*`, so that a method declared with both is both.
/// An attribute is static exactly where its declaration holds `$`.
pub proof fn classifiers_are_independent(decl: NodeView)
    ensures
        match member_of(decl) {
            Ok(MemberView::Method(m)) => m.is_static == has_classifier(decl.children, "$"@)
                && m.is_abstract == has_classifier(decl.children, "*"@),
            Ok(MemberView::Attribute(a)) => a.is_static == has_classifier(decl.children, "$"@),
            Err(_) => true,
        },
{
    lemma_core_carries_markers(
        decl.children,
        crate::parser::declared_visibility(decl.children),
        has_classifier(decl.children, "$"@),
        has_classifier(decl.children, "*"@),
    );
}

/// Whether every namespace of `d` goes by the name it is kept under and
/// has no nested namespace, and every class of `d` is kept in the namespace
/// and under the simple name that its own name gives, and says so of its
/// namespace.
pub open spec fn is_consistent(d: DiagramView) -> bool {
    forall|ns: Seq<char>| #[trigger]
        d.namespaces.contains_key(ns) ==> {
            &&& d.namespaces[ns].name == ns
            &&& d.namespaces[ns].children.len() == 0
            &&& forall|name: Seq<char>| #[trigger]
                d.namespaces[ns].classes.contains_key(name) ==> {
                    &&& d.namespaces[ns].classes[name].namespace == ns
                    &&& split(d.namespaces[ns].classes[name].name) == (ns, name)
                }
        }
}

/// Whether the class of a class statement says of its namespace what its
/// name gives.
pub open spec fn is_well_placed(stmt: StmtView) -> bool {
    stmt matches StmtView::Class(c) ==> c.namespace == split(c.name).0
}

/// A statement keeps a consistent diagram consistent.
pub proof fn apply_keeps_consistency(d: DiagramView, stmt: StmtView)
    requires
        is_consistent(d),
        is_well_placed(stmt),
    ensures
        is_consistent(apply(d, stmt)),
{
    let after = apply(d, stmt);
    match stmt {
        StmtView::Class(c) => {
            let (target_ns, target_name) = split(c.name);
            assert forall|ns: Seq<char>| #[trigger] after.namespaces.contains_key(ns) implies {
                &&& after.namespaces[ns].name == ns
                &&& after.namespaces[ns].children.len() == 0
                &&& forall|name: Seq<char>| #[trigger]
                    after.namespaces[ns].classes.contains_key(name) ==> {
                        &&& after.namespaces[ns].classes[name].namespace == ns
                        &&& split(after.namespaces[ns].classes[name].name) == (ns, name)
                    }
            } by {
                if ns != target_ns {
                    assert(d.namespaces.contains_key(ns));
                } else if d.namespaces.contains_key(ns) {
                    assert forall|name: Seq<char>| #[trigger]
                        after.namespaces[ns].classes.contains_key(name) implies {
                        &&& after.namespaces[ns].classes[name].namespace == ns
                        &&& split(after.namespaces[ns].classes[name].name) == (ns, name)
                    } by {
                        if name != target_name {
                            assert(d.namespaces[ns].classes.contains_key(name));
                        }
                    }
                }
            }
        },
        StmtView::Member { target, member } => {
            let (target_ns, target_name) = split(target);
            assert forall|ns: Seq<char>| #[trigger] after.namespaces.contains_key(ns) implies {
                &&& after.namespaces[ns].name == ns
                &&& after.namespaces[ns].children.len() == 0
                &&& forall|name: Seq<char>| #[trigger]
                    after.namespaces[ns].classes.contains_key(name) ==> {
                        &&& after.namespaces[ns].classes[name].namespace == ns
                        &&& split(after.namespaces[ns].classes[name].name) == (ns, name)
                    }
            } by {
                if ns != target_ns {
                    assert(d.namespaces.contains_key(ns));
                } else if d.namespaces.contains_key(ns) {
                    assert forall|name: Seq<char>| #[trigger]
                        after.namespaces[ns].classes.contains_key(name) implies {
                        &&& after.namespaces[ns].classes[name].namespace == ns
                        &&& split(after.namespaces[ns].classes[name].name) == (ns, name)
                    } by {
                        if name != target_name {
                            assert(d.namespaces[ns].classes.contains_key(name));
                        } else if d.namespaces[ns].classes.contains_key(name) {
                        }
                    }
                }
            }
        },
        StmtView::Relation(r) => {
            assert forall|ns: Seq<char>| #[trigger] after.namespaces.contains_key(ns) implies {
                &&& after.namespaces[ns].name == ns
                &&& after.namespaces[ns].children.len() == 0
                &&& forall|name: Seq<char>| #[trigger]
                    after.namespaces[ns].classes.contains_key(name) ==> {
                        &&& after.namespaces[ns].classes[name].namespace == ns
                        &&& split(after.namespaces[ns].classes[name].name) == (ns, name)
                    }
            } by {
                assert(d.namespaces.contains_key(ns));
            }
        },
    }
}

/// The diagram that well-placed statements build is consistent.
pub proof fn assembled_diagram_is_consistent(stmts: Seq<StmtView>)
    requires
        forall|k: int| 0 <= k < stmts.len() ==> is_well_placed(#[trigger] stmts[k]),
    ensures
        is_consistent(assemble(stmts)),
    decreases stmts.len(),
{
    if stmts.len() > 0 {
        assembled_diagram_is_consistent(stmts.drop_last());
        apply_keeps_consistency(assemble(stmts.drop_last()), stmts.last());
    }
}

/// Every statement collected from a tree is well placed.
pub proof fn collected_statements_are_well_placed(t: NodeView)
    ensures
        forall|k: int|
            0 <= k < collect(t).statements.len() ==> is_well_placed(
                #[trigger] collect(t).statements[k],
            ),
    decreases t, t.children.len() + 1,
{
    if statement_of(t) is None {
        lemma_first_are_well_placed(t, t.children.len());
    }
}

/// Every statement collected from the first `n` children of a tree is well
/// placed.
proof fn lemma_first_are_well_placed(t: NodeView, n: nat)
    ensures
        forall|k: int|
            0 <= k < collect_first(t, n).statements.len() ==> is_well_placed(
                #[trigger] collect_first(t, n).statements[k],
            ),
    decreases t, n,
{
    if 0 < n <= t.children.len() {
        lemma_first_are_well_placed(t, (n - 1) as nat);
        collected_statements_are_well_placed(t.children[n - 1]);
    }
}

/// The diagram of every document is consistent: each namespace goes by the
/// name it is kept under, and each class is kept where its name says.
pub proof fn parsed_diagram_is_consistent(text: Seq<char>)
    ensures
        parse_outcome(text) matches Ok(d) ==> is_consistent(d),
{
    if let Ok(tree) = parse_tree(Rule::Diagram, text) {
        lemma_first_are_well_placed(tree, tree.children.len());
        assembled_diagram_is_consistent(collect_first(tree, tree.children.len()).statements);
    }
}

/// The relations among `stmts`, in order.
pub open spec fn relations_among(stmts: Seq<StmtView>) -> Seq<RelationView>
    decreases stmts.len(),
{
    if stmts.len() == 0 {
        Seq::empty()
    } else {
        match stmts.last() {
            StmtView::Relation(r) => relations_among(stmts.drop_last()).push(r),
            _ => relations_among(stmts.drop_last()),
        }
    }
}

/// The relations of a diagram are the relations declared, in the order of
/// their declaration, none dropped and none added.
pub proof fn relations_keep_declaration_order(stmts: Seq<StmtView>)
    ensures
        assemble(stmts).relations == relations_among(stmts),
    decreases stmts.len(),
{
    if stmts.len() > 0 {
        relations_keep_declaration_order(stmts.drop_last());
    }
}

/// Whether `d` holds a class under the simple name `name` in the
/// namespace `ns`.
pub open spec fn holds_class(d: DiagramView, ns: Seq<char>, name: Seq<char>) -> bool {
    d.namespaces.contains_key(ns) && d.namespaces[ns].classes.contains_key(name)
}

/// No statement removes a namespace or a class: what a diagram holds, it
/// still holds after the statement.
pub proof fn apply_removes_nothing(d: DiagramView, stmt: StmtView)
    ensures
        forall|ns: Seq<char>| #[trigger]
            d.namespaces.contains_key(ns) ==> apply(d, stmt).namespaces.contains_key(ns),
        forall|ns: Seq<char>, name: Seq<char>| #[trigger]
            holds_class(d, ns, name) ==> holds_class(apply(d, stmt), ns, name),
        d.relations.len() <= apply(d, stmt).relations.len(),
{
}

/// Once declared, a class stays declared: the diagram holds a class under
/// the name of every class statement and of the target of every member
/// statement, in the namespace that the name gives. So the default
/// namespace exists as soon as a class without a namespace is declared.
pub proof fn declared_classes_stay(stmts: Seq<StmtView>, k: int)
    requires
        0 <= k < stmts.len(),
    ensures
        stmts[k] matches StmtView::Class(c) ==> holds_class(
            assemble(stmts),
            split(c.name).0,
            split(c.name).1,
        ),
        stmts[k] matches StmtView::Member { target, member } ==> holds_class(
            assemble(stmts),
            split(target).0,
            split(target).1,
        ),
    decreases stmts.len(),
{
    if k < stmts.len() - 1 {
        declared_classes_stay(stmts.drop_last(), k);
        apply_removes_nothing(assemble(stmts.drop_last()), stmts.last());
        assert(stmts.drop_last()[k] == stmts[k]);
    }
}

/// The members that the statements `stmts` declare for the class kept
/// under `name` in the namespace `ns`: those of its last class statement,
/// then those of the member statements after it, in order.
pub open spec fn members_declared(
    stmts: Seq<StmtView>,
    ns: Seq<char>,
    name: Seq<char>,
) -> Seq<MemberView>
    decreases stmts.len(),
{
    if stmts.len() == 0 {
        Seq::empty()
    } else {
        let before = members_declared(stmts.drop_last(), ns, name);
        match stmts.last() {
            StmtView::Class(c) => if split(c.name) == (ns, name) {
                c.members
            } else {
                before
            },
            StmtView::Member { target, member } => if split(target) == (ns, name) {
                before.push(member)
            } else {
                before
            },
            StmtView::Relation(_) => before,
        }
    }
}

/// The members of a class are those declared for it, in the order of their
/// declaration: a class statement starts the class anew, and every member
/// statement after it adds its member at the end. A class that no
/// statement names is not in the diagram.
pub proof fn members_keep_declaration_order(stmts: Seq<StmtView>, ns: Seq<char>, name: Seq<char>)
    ensures
        holds_class(assemble(stmts), ns, name) ==> assemble(
            stmts,
        ).namespaces[ns].classes[name].members == members_declared(stmts, ns, name),
        !holds_class(assemble(stmts), ns, name) ==> members_declared(stmts, ns, name)
            == Seq::<MemberView>::empty(),
    decreases stmts.len(),
{
    if stmts.len() > 0 {
        let before = assemble(stmts.drop_last());
        members_keep_declaration_order(stmts.drop_last(), ns, name);
        apply_removes_nothing(before, stmts.last());
        match stmts.last() {
            StmtView::Class(c) => {},
            StmtView::Member { target, member } => {
                if split(target) == (ns, name) && !holds_class(before, ns, name) {
                    assert(Seq::<MemberView>::empty().push(member) =~= members_declared(
                        stmts,
                        ns,
                        name,
                    ));
                }
            },
            StmtView::Relation(_) => {},
        }
    }
}

} // verus!
