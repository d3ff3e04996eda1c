//! What holds of the spans of the trees that the grammar builds: every node
//! holds the text of its span, and its children lie inside it, one after
//! the other.

use vstd::prelude::*;
use crate::grammar::{
    annotation, arrow, bare_name, class, class_explicit, class_head, class_identifier,
    class_labels, classifiers, comment, document, generic, label, lemma_annotation_advances,
    lemma_arrow_advances, lemma_class_advances, lemma_classifiers_end, lemma_comment_note_advance,
    lemma_generic_advances, lemma_identifier_advances, lemma_label_advances,
    lemma_member_body_advances, lemma_more_parameters_end, lemma_parameter_advances,
    lemma_statement_advances, lemma_typed_advances, member_body, member_decl, member_stmt,
    method_parameter, method_tail, more_parameters, name, note, parameter, relation_stmt,
    statement, statements, typed, typed_method, typed_name, visibility, BodyShape,
};
use crate::text::{is_at, lemma_scan_bounds, scan, CharClass};
use crate::tree::{branch, end_after, optional, NodeView, Rule};
use crate::tree_laws::lemma_classifier_row;

verus! {

/// Whether every tree among `nodes` spans positions between `from` and
/// `to`.
pub open spec fn are_within(nodes: Seq<NodeView>, from: int, to: int) -> bool {
    forall|k: int|
        0 <= k < nodes.len() ==> from <= (#[trigger] nodes[k]).start && nodes[k].end <= to
}

/// Whether the trees `nodes` stand in order: each ends before the next
/// ones begin.
pub open spec fn are_ordered(nodes: Seq<NodeView>) -> bool {
    forall|j: int, k: int|
        0 <= j < k < nodes.len() ==> (#[trigger] nodes[j]).end <= (#[trigger] nodes[k]).start
}

/// Whether the tree `t` is laid out in the text `s`: every node spans a
/// part of `s` and holds that part as its text, and the children of every
/// node lie inside its span, in order, and do not overlap.
pub open spec fn is_laid_out(t: NodeView, s: Seq<char>) -> bool
    decreases t,
{
    &&& 0 <= t.start <= t.end <= s.len()
    &&& t.text == s.subrange(t.start, t.end)
    &&& forall|k: int| 0 <= k < t.children.len() ==> is_laid_out(#[trigger] t.children[k], s)
    &&& are_within(t.children, t.start, t.end)
    &&& are_ordered(t.children)
}

/// Whether the trees `nodes` are laid out in `s` between the positions
/// `from` and `to`, in order, without overlap.
pub open spec fn is_row(nodes: Seq<NodeView>, s: Seq<char>, from: int, to: int) -> bool {
    &&& forall|k: int| 0 <= k < nodes.len() ==> is_laid_out(#[trigger] nodes[k], s)
    &&& are_within(nodes, from, to)
    &&& are_ordered(nodes)
}

/// A node over a row of trees in its span is laid out.
proof fn lemma_branch(rule: Rule, s: Seq<char>, start: int, end: int, children: Seq<NodeView>)
    requires
        0 <= start <= end <= s.len(),
        is_row(children, s, start, end),
    ensures
        is_laid_out(branch(rule, s, start, end, children), s),
{
}

/// A row and a row after it make a row.
proof fn lemma_row_add(
    a: Seq<NodeView>,
    b: Seq<NodeView>,
    s: Seq<char>,
    from: int,
    mid: int,
    to: int,
)
    requires
        from <= mid <= to,
        is_row(a, s, from, mid),
        is_row(b, s, mid, to),
    ensures
        is_row(a + b, s, from, to),
{
    let all = a + b;
    assert forall|k: int| 0 <= k < all.len() implies is_laid_out(#[trigger] all[k], s) by {
        if k < a.len() {
            assert(all[k] == a[k]);
        } else {
            assert(all[k] == b[k - a.len()]);
        }
    }
    assert forall|k: int| 0 <= k < all.len() implies from <= (#[trigger] all[k]).start
        && all[k].end <= to by {
        if k < a.len() {
            assert(all[k] == a[k]);
        } else {
            assert(all[k] == b[k - a.len()]);
        }
    }
    assert forall|j: int, k: int| 0 <= j < k < all.len() implies (#[trigger] all[j]).end <= (
    #[trigger] all[k]).start by {
        if k < a.len() {
            assert(all[j] == a[j] && all[k] == a[k]);
        } else if j < a.len() {
            assert(all[j] == a[j] && all[k] == b[k - a.len()]);
        } else {
            assert(all[j] == b[j - a.len()] && all[k] == b[k - a.len()]);
        }
    }
}

/// One tree, or none, makes a row in every span that holds it.
proof fn lemma_row_optional(node: Option<NodeView>, s: Seq<char>, from: int, to: int)
    requires
        node matches Some(n) ==> is_laid_out(n, s) && from <= n.start && n.end <= to,
    ensures
        is_row(optional(node), s, from, to),
{
}

/// A node without children over a part of the text is laid out.
proof fn lemma_leaf(n: NodeView, s: Seq<char>)
    requires
        n.children.len() == 0,
        0 <= n.start <= n.end <= s.len(),
        n.text == s.subrange(n.start, n.end),
    ensures
        is_laid_out(n, s),
{
}

/// Identifiers and names are laid out from where they are matched.
proof fn lemma_identifier_layout(s: Seq<char>, i: int, rule: Rule)
    ensures
        class_identifier(s, i) matches Some(n) ==> is_laid_out(n, s) && n.start == i && i < n.end
            <= s.len(),
        name(rule, s, i) matches Some(n) ==> is_laid_out(n, s) && n.start == i && i < n.end
            <= s.len(),
{
    lemma_identifier_advances(s, i);
    if let Some(n) = class_identifier(s, i) {
        lemma_leaf(n, s);
    }
    if let Some(n) = name(rule, s, i) {
        lemma_leaf(n, s);
    }
}

/// A type with a name, and a name alone, are laid out from where they are
/// matched.
proof fn lemma_named_layout(rule: Rule, leaf_rule: Rule, s: Seq<char>, i: int)
    ensures
        typed_name(rule, leaf_rule, s, i) matches Some(n) ==> is_laid_out(n, s) && n.start == i
            && i < n.end <= s.len(),
        bare_name(rule, leaf_rule, s, i) matches Some(n) ==> is_laid_out(n, s) && n.start == i
            && i < n.end <= s.len(),
{
    lemma_typed_advances(s, i);
    lemma_identifier_layout(s, i, leaf_rule);
    if let Some((t, k)) = typed(s, i) {
        lemma_identifier_layout(s, k, leaf_rule);
        if let Some(n) = name(leaf_rule, s, k) {
            lemma_row_optional(Some(t), s, i, k);
            lemma_row_optional(Some(n), s, k, n.end);
            lemma_row_add(seq![t], seq![n], s, i, k, n.end);
            assert(seq![t] + seq![n] =~= seq![t, n]);
            lemma_branch(rule, s, i, n.end, seq![t, n]);
        }
    }
    if let Some(n) = name(leaf_rule, s, i) {
        lemma_row_optional(Some(n), s, i, n.end);
        lemma_branch(rule, s, i, n.end, seq![n]);
    }
}

/// A parameter is laid out from where it is matched.
proof fn lemma_parameter_layout(s: Seq<char>, i: int)
    ensures
        parameter(s, i) matches Some(n) ==> is_laid_out(n, s) && n.start == i && i < n.end
            <= s.len(),
{
    lemma_named_layout(Rule::Parameter, Rule::VariableIdentifier, s, i);
}

/// The parameters after the first make a row from where they are matched.
proof fn lemma_more_parameters_layout(s: Seq<char>, i: int)
    requires
        0 <= i <= s.len(),
    ensures
        is_row(more_parameters(s, i), s, i, end_after(more_parameters(s, i), i)),
        i <= end_after(more_parameters(s, i), i) <= s.len(),
    decreases s.len() - i,
{
    lemma_more_parameters_end(s, i);
    let comma = scan(s, i, CharClass::Blank);
    lemma_scan_bounds(s, i, CharClass::Blank);
    if is_at(s, comma, ',') {
        let at = scan(s, comma + 1, CharClass::Blank);
        lemma_scan_bounds(s, comma + 1, CharClass::Blank);
        if let Some(p) = parameter(s, at) {
            lemma_parameter_advances(s, at);
            lemma_parameter_layout(s, at);
            lemma_more_parameters_layout(s, p.end);
            let rest = more_parameters(s, p.end);
            let end = end_after(rest, p.end);
            lemma_row_optional(Some(p), s, i, p.end);
            lemma_row_add(seq![p], rest, s, i, p.end, end);
            assert(more_parameters(s, i) == seq![p] + rest);
            if rest.len() > 0 {
                assert((seq![p] + rest).last() == rest.last());
            } else {
                assert((seq![p] + rest).last() == p);
            }
        }
    }
}

/// A parameter list is laid out from where it is matched.
proof fn lemma_parameter_list_layout(s: Seq<char>, i: int)
    ensures
        method_parameter(s, i) matches Some(n) ==> is_laid_out(n, s) && n.start == i && i < n.end
            <= s.len(),
{
    if let Some(first) = parameter(s, i) {
        lemma_parameter_advances(s, i);
        lemma_parameter_layout(s, i);
        lemma_more_parameters_layout(s, first.end);
        let rest = more_parameters(s, first.end);
        let end = end_after(rest, first.end);
        lemma_row_optional(Some(first), s, i, first.end);
        lemma_row_add(seq![first], rest, s, i, first.end, end);
        lemma_branch(Rule::MethodParameter, s, i, end, seq![first] + rest);
    }
}

/// The nodes of the tail of a method make a row from where the tail is
/// matched.
proof fn lemma_method_tail_layout(s: Seq<char>, i: int)
    ensures
        method_tail(s, i) matches Some((nodes, end)) ==> is_row(nodes, s, i, end) && i < end
            <= s.len(),
{
    if let Some((nodes, end)) = method_tail(s, i) {
        lemma_identifier_layout(s, i, Rule::MethodIdentifier);
        let n = name(Rule::MethodIdentifier, s, i)->0;
        let open = scan(s, n.end, CharClass::Blank);
        lemma_scan_bounds(s, n.end, CharClass::Blank);
        let first = scan(s, open + 1, CharClass::Blank);
        lemma_scan_bounds(s, open + 1, CharClass::Blank);
        let list = method_parameter(s, first);
        lemma_parameter_list_layout(s, first);
        let params = optional(list);
        let after_params = end_after(params, first);
        let close = scan(s, after_params, CharClass::Blank);
        lemma_scan_bounds(s, after_params, CharClass::Blank);
        let at = scan(s, close + 1, CharClass::Blank);
        lemma_scan_bounds(s, close + 1, CharClass::Blank);
        let back = class_identifier(s, at);
        lemma_identifier_layout(s, at, Rule::ClassIdentifier);
        let ret = optional(back);
        lemma_row_optional(Some(n), s, i, first);
        lemma_row_optional(list, s, first, close + 1);
        lemma_row_optional(back, s, close + 1, end);
        lemma_row_add(seq![n], params, s, i, first, close + 1);
        lemma_row_add(seq![n] + params, ret, s, i, close + 1, end);
    }
}

/// The body of a member is laid out from where it is matched.
proof fn lemma_body_layout(s: Seq<char>, i: int, shape: BodyShape)
    ensures
        member_body(s, i, shape) matches Some(n) ==> is_laid_out(n, s) && n.start == i && i < n.end
            <= s.len(),
{
    lemma_member_body_advances(s, i, shape);
    if let Some(body) = member_body(s, i, shape) {
        if body.rule == Rule::ClassPropertyDecl {
            lemma_named_layout(Rule::ClassPropertyDecl, Rule::VariableIdentifier, s, i);
        } else {
            lemma_typed_advances(s, i);
            lemma_identifier_layout(s, i, Rule::ClassIdentifier);
            let (type_node, after_type) = typed(s, i)->0;
            if typed_method(s, i) is Some {
                let (nodes, end) = method_tail(s, after_type)->0;
                lemma_method_tail_layout(s, after_type);
                lemma_row_optional(Some(type_node), s, i, after_type);
                lemma_row_add(seq![type_node], nodes, s, i, after_type, end);
                lemma_branch(Rule::ClassMethodDecl, s, i, end, seq![type_node] + nodes);
            } else {
                let (nodes, end) = method_tail(s, i)->0;
                lemma_method_tail_layout(s, i);
                lemma_branch(Rule::ClassMethodDecl, s, i, end, nodes);
            }
        }
    }
}

/// A row of classifier markers is a row from where it is matched.
proof fn lemma_classifiers_layout(s: Seq<char>, j: int)
    requires
        0 <= j <= s.len(),
    ensures
        is_row(classifiers(s, j), s, j, j + classifiers(s, j).len()),
        end_after(classifiers(s, j), j) == j + classifiers(s, j).len(),
        j + classifiers(s, j).len() <= s.len(),
{
    lemma_classifier_row(s, j);
    lemma_classifiers_end(s, j);
    let row = classifiers(s, j);
    assert forall|k: int| 0 <= k < row.len() implies is_laid_out(#[trigger] row[k], s) by {
        lemma_leaf(row[k], s);
    }
}

/// A member is laid out from where it is matched.
proof fn lemma_member_layout(s: Seq<char>, i: int, shape: BodyShape)
    requires
        0 <= i <= s.len(),
    ensures
        member_decl(s, i, shape) matches Some(n) ==> is_laid_out(n, s) && n.start == i && i < n.end
            <= s.len(),
{
    if let Some(d) = member_decl(s, i, shape) {
        let mark = visibility(s, i);
        let marker = optional(mark);
        let after_marker = end_after(marker, i);
        if let Some(v) = mark {
            lemma_leaf(v, s);
        }
        lemma_row_optional(mark, s, i, after_marker);
        let leading = classifiers(s, after_marker);
        lemma_classifiers_layout(s, after_marker);
        let body_at = end_after(leading, after_marker);
        let body = member_body(s, body_at, shape)->0;
        lemma_body_layout(s, body_at, shape);
        let trailing = classifiers(s, body.end);
        lemma_classifiers_layout(s, body.end);
        let end = end_after(trailing, body.end);
        lemma_row_add(marker, leading, s, i, after_marker, body_at);
        lemma_row_optional(Some(body), s, body_at, body.end);
        lemma_row_add(marker + leading, seq![body], s, i, body_at, body.end);
        lemma_row_add(marker + leading + seq![body], trailing, s, i, body.end, end);
        lemma_branch(Rule::MemberDecl, s, i, end, marker + leading + seq![body] + trailing);
    }
}

/// A statement is laid out from where it is matched.
proof fn lemma_statement_layout(s: Seq<char>, i: int)
    ensures
        statement(s, i) matches Some(n) ==> is_laid_out(n, s) && n.start == i && i < n.end
            <= s.len(),
{
    lemma_statement_advances(s, i);
    if let Some(n) = statement(s, i) {
        if class(s, i) is Some {
            lemma_class_advances(s, i);
            let id = class_head(s, i)->0;
            let at = scan(s, i + "class"@.len(), CharClass::Blank);
            lemma_scan_bounds(s, i + "class"@.len(), CharClass::Blank);
            lemma_identifier_layout(s, at, Rule::ClassIdentifier);
            let g = generic(s, id.end);
            lemma_generic_advances(s, id.end);
            if let Some(x) = g {
                lemma_leaf(x, s);
            }
            let suffix = optional(g);
            let after_suffix = end_after(suffix, id.end);
            let tag_at = scan(s, after_suffix, CharClass::Blank);
            lemma_scan_bounds(s, after_suffix, CharClass::Blank);
            let l = label(s, tag_at);
            lemma_label_advances(s, tag_at);
            if let Some(x) = l {
                lemma_leaf(x, s);
            }
            let tag = optional(l);
            let after_tag = end_after(tag, after_suffix);
            let note_at = scan(s, after_tag, CharClass::Blank);
            lemma_scan_bounds(s, after_tag, CharClass::Blank);
            let a = annotation(s, note_at);
            lemma_annotation_advances(s, note_at);
            if let Some(x) = a {
                lemma_leaf(x, s);
            }
            let last = optional(a);
            let end = end_after(last, after_tag);
            lemma_row_optional(Some(id), s, i, id.end);
            lemma_row_optional(g, s, id.end, after_suffix);
            lemma_row_optional(l, s, after_suffix, after_tag);
            lemma_row_optional(a, s, after_tag, end);
            lemma_row_add(seq![id], suffix, s, i, id.end, after_suffix);
            lemma_row_add(seq![id] + suffix, tag, s, i, after_suffix, after_tag);
            lemma_row_add(seq![id] + suffix + tag, last, s, i, after_tag, end);
            lemma_branch(Rule::Class, s, i, end, seq![id] + suffix + tag + last);
        } else if member_stmt(s, i, BodyShape::Any) is Some {
            let id = class_identifier(s, i)->0;
            lemma_identifier_layout(s, i, Rule::ClassIdentifier);
            let colon = scan(s, id.end, CharClass::Blank);
            lemma_scan_bounds(s, id.end, CharClass::Blank);
            let at = scan(s, colon + 1, CharClass::Blank);
            lemma_scan_bounds(s, colon + 1, CharClass::Blank);
            let d = member_decl(s, at, BodyShape::Any)->0;
            lemma_member_layout(s, at, BodyShape::Any);
            lemma_row_optional(Some(id), s, i, at);
            lemma_row_optional(Some(d), s, at, d.end);
            lemma_row_add(seq![id], seq![d], s, i, at, d.end);
            assert(seq![id] + seq![d] =~= seq![id, d]);
            lemma_branch(Rule::MemberStmt, s, i, d.end, seq![id, d]);
        } else if relation_stmt(s, i) is Some {
            let from = class_identifier(s, i)->0;
            lemma_identifier_layout(s, i, Rule::ClassIdentifier);
            let arrow_at = scan(s, from.end, CharClass::Blank);
            lemma_scan_bounds(s, from.end, CharClass::Blank);
            let a = arrow(s, arrow_at)->0;
            lemma_arrow_advances(s, arrow_at);
            crate::tree_laws::arrow_is_its_lexeme(s, arrow_at);
            lemma_leaf(a, s);
            let to_at = scan(s, a.end, CharClass::Blank);
            lemma_scan_bounds(s, a.end, CharClass::Blank);
            let to = class_identifier(s, to_at)->0;
            lemma_identifier_layout(s, to_at, Rule::ClassIdentifier);
            lemma_row_optional(Some(from), s, i, arrow_at);
            lemma_row_optional(Some(a), s, arrow_at, to_at);
            lemma_row_optional(Some(to), s, to_at, to.end);
            lemma_row_add(seq![from], seq![a], s, i, arrow_at, to_at);
            lemma_row_add(seq![from] + seq![a], seq![to], s, i, to_at, to.end);
            assert(seq![from] + seq![a] + seq![to] =~= seq![from, a, to]);
            lemma_branch(Rule::RelationStmt, s, i, to.end, seq![from, a, to]);
        } else {
            lemma_comment_note_advance(s, i);
            if comment(s, i) is Some {
                lemma_leaf(n, s);
            } else {
                assert(note(s, i) == Some(n));
                lemma_leaf(n, s);
            }
        }
    }
}

/// The statements of a document make a row from where they are matched.
proof fn lemma_statements_layout(s: Seq<char>, i: int)
    requires
        0 <= i <= s.len(),
    ensures
        statements(s, i) matches Ok(nodes) ==> is_row(nodes, s, i, s.len() as int),
    decreases s.len() - i,
{
    if let Ok(nodes) = statements(s, i) {
        let at = scan(s, i, CharClass::Layout);
        lemma_scan_bounds(s, i, CharClass::Layout);
        if at < s.len() {
            let n = statement(s, at)->0;
            lemma_statement_layout(s, at);
            lemma_statements_layout(s, n.end);
            let rest = statements(s, n.end)->Ok_0;
            lemma_row_optional(Some(n), s, i, n.end);
            lemma_row_add(seq![n], rest, s, i, n.end, s.len() as int);
        }
    }
}

/// The match tree of every document is laid out in the document: the root
/// spans the whole text, every node holds the text of its span, and the
/// children of every node lie inside it, in document order, without
/// overlap.
pub proof fn document_tree_is_laid_out(text: Seq<char>)
    ensures
        document(text) matches Ok(tree) ==> is_laid_out(tree, text) && tree.start == 0 && tree.end
            == text.len() && tree.text == text,
{
    if let Ok(tree) = document(text) {
        let at = scan(text, 0, CharClass::Layout);
        lemma_scan_bounds(text, 0, CharClass::Layout);
        let after = at + "classDiagram"@.len();
        lemma_statements_layout(text, after);
        let nodes = statements(text, after)->Ok_0;
        assert(is_row(nodes, text, 0, text.len() as int));
        lemma_branch(Rule::Diagram, text, 0, text.len() as int, nodes);
        assert(text.subrange(0, text.len() as int) =~= text);
    }
}

} // verus!
