//! What holds of the trees that the grammar builds: every construct that
//! the grammar accepts has the parts that its builder needs.

use vstd::prelude::*;
use crate::document_laws::{
    identifier_is_unqualified, identifier_node_is_well_formed, is_identifier, simple_class,
};
use crate::grammar::{
    annotation, arrow, class, class_head, class_identifier, class_method_decl,
    class_property_decl, classifier, classifiers, document, generic, label,
    lemma_classifiers_end, lemma_identifier_advances, lemma_member_body_advances,
    lemma_statement_advances, member_body, member_decl, member_stmt, method_parameter,
    method_tail, more_parameters, name, parameter, relation_stmt, statement, statements, typed,
    typed_method, typed_name, visibility, BodyShape,
};
use crate::laws::{is_arrow, lemma_core_carries_markers};
use crate::parser::{
    arrow_style, attribute_of, class_members, class_of, collect, collect_first,
    declared_visibility, has_classifier, member_core, member_of, member_stmt_of, method_of,
    method_parameters, parameter_of, parameters_of, parse_outcome, relation_of, ParseErrorView,
    StmtView,
};
use crate::text::{lemma_scan_bounds, lemma_word_at, scan, word_at, CharClass};
use crate::tree::{end_after, last_text, leaf, optional, NodeView, Rule};
use crate::types::{
    visibility_of, ClassView, MemberView, ParameterView, RelationView, Visibility,
};

verus! {

/// The text of the last node of a rule among two rows of nodes is that
/// among the second row, or else that among the first.
pub proof fn lemma_last_text_add(a: Seq<NodeView>, b: Seq<NodeView>, rule: Rule)
    ensures
        last_text(a + b, rule) == match last_text(b, rule) {
            Some(t) => Some(t),
            None => last_text(a, rule),
        },
    decreases b.len(),
{
    if b.len() == 0 {
        assert(a + b =~= a);
    } else {
        assert((a + b).drop_last() =~= a + b.drop_last());
        assert((a + b).last() == b.last());
        lemma_last_text_add(a, b.drop_last(), rule);
    }
}

/// The text of the last node of a rule among one node.
pub proof fn lemma_last_text_one(x: NodeView, rule: Rule)
    ensures
        last_text(seq![x], rule) == if x.rule == rule {
            Some(x.text)
        } else {
            None
        },
{
    assert(seq![x].drop_last() =~= Seq::<NodeView>::empty());
    assert(seq![x].last() == x);
    reveal_with_fuel(last_text, 2);
}

/// No node of a rule, no text.
pub proof fn lemma_last_text_none(nodes: Seq<NodeView>, rule: Rule)
    requires
        forall|k: int| 0 <= k < nodes.len() ==> (#[trigger] nodes[k]).rule != rule,
    ensures
        last_text(nodes, rule) is None,
    decreases nodes.len(),
{
    if nodes.len() > 0 {
        lemma_last_text_none(nodes.drop_last(), rule);
    }
}

/// The texts among a type and a name.
proof fn lemma_typed_pair(t: NodeView, n: NodeView, leaf_rule: Rule)
    requires
        t.rule == Rule::ClassIdentifier,
        n.rule == leaf_rule,
        leaf_rule != Rule::ClassIdentifier,
    ensures
        last_text(seq![t, n], leaf_rule) == Some(n.text),
        last_text(seq![t, n], Rule::ClassIdentifier) == Some(t.text),
{
    assert(seq![t, n] =~= seq![t] + seq![n]);
    lemma_last_text_add(seq![t], seq![n], leaf_rule);
    lemma_last_text_add(seq![t], seq![n], Rule::ClassIdentifier);
    lemma_last_text_one(n, leaf_rule);
    lemma_last_text_one(n, Rule::ClassIdentifier);
    lemma_last_text_one(t, Rule::ClassIdentifier);
}

/// A parameter that the grammar accepts has a name: it is built without a
/// structural error, with the type and the name that the text gives.
pub proof fn parameter_is_built(s: Seq<char>, i: int)
    ensures
        parameter(s, i) matches Some(p) ==> p.rule == Rule::Parameter && parameter_of(p) is Ok,
        parameter(s, i) matches Some(p) ==> match typed(s, i) {
            Some((t, k)) if name(Rule::VariableIdentifier, s, k) is Some => parameter_of(p) == Ok::<
                ParameterView,
                ParseErrorView,
            >(
                ParameterView {
                    name: name(Rule::VariableIdentifier, s, k)->0.text,
                    data_type: Some(t.text),
                },
            ),
            _ => parameter_of(p) == Ok::<ParameterView, ParseErrorView>(
                ParameterView {
                    name: name(Rule::VariableIdentifier, s, i)->0.text,
                    data_type: None,
                },
            ),
        },
{
    if let Some(p) = parameter(s, i) {
        if let Some(q) = typed_name(Rule::Parameter, Rule::VariableIdentifier, s, i) {
            let (t, k) = typed(s, i)->0;
            let n = name(Rule::VariableIdentifier, s, k)->0;
            lemma_typed_pair(t, n, Rule::VariableIdentifier);
        } else {
            let n = name(Rule::VariableIdentifier, s, i)->0;
            lemma_last_text_one(n, Rule::VariableIdentifier);
            lemma_last_text_one(n, Rule::ClassIdentifier);
        }
    }
}

/// The body of an attribute that the grammar accepts has a name: it is
/// built without a structural error under any markers.
pub proof fn attribute_is_built(s: Seq<char>, i: int, visibility: Visibility, is_static: bool)
    ensures
        class_property_decl(s, i) matches Some(a) ==> a.rule == Rule::ClassPropertyDecl
            && attribute_of(a, visibility, is_static) is Ok,
{
    if let Some(a) = class_property_decl(s, i) {
        if let Some(q) = typed_name(Rule::ClassPropertyDecl, Rule::VariableIdentifier, s, i) {
            let (t, k) = typed(s, i)->0;
            let n = name(Rule::VariableIdentifier, s, k)->0;
            lemma_typed_pair(t, n, Rule::VariableIdentifier);
        } else {
            let n = name(Rule::VariableIdentifier, s, i)->0;
            lemma_last_text_one(n, Rule::VariableIdentifier);
        }
    }
}

/// Whether every node of `parts` is a parameter that is built without a
/// structural error.
pub open spec fn are_parameters(parts: Seq<NodeView>) -> bool {
    forall|k: int|
        0 <= k < parts.len() ==> (#[trigger] parts[k]).rule == Rule::Parameter && parameter_of(
            parts[k],
        ) is Ok
}

/// Parameters that are built one by one are built as a row, one for each.
pub proof fn lemma_parameters_are_built(parts: Seq<NodeView>)
    requires
        are_parameters(parts),
    ensures
        parameters_of(parts) matches Ok(ps) && ps.len() == parts.len(),
    decreases parts.len(),
{
    if parts.len() > 0 {
        assert forall|k: int| 0 <= k < parts.drop_last().len() implies (
        #[trigger] parts.drop_last()[k]).rule == Rule::Parameter && parameter_of(
            parts.drop_last()[k],
        ) is Ok by {
            assert(parts.drop_last()[k] == parts[k]);
        }
        lemma_parameters_are_built(parts.drop_last());
        assert(parts.last() == parts[parts.len() - 1]);
    }
}

/// The parameters after the first are parameters.
proof fn lemma_more_parameters(s: Seq<char>, i: int)
    requires
        0 <= i <= s.len(),
    ensures
        are_parameters(more_parameters(s, i)),
    decreases s.len() - i,
{
    let comma = scan(s, i, CharClass::Blank);
    lemma_scan_bounds(s, i, CharClass::Blank);
    if crate::text::is_at(s, comma, ',') {
        let at = scan(s, comma + 1, CharClass::Blank);
        lemma_scan_bounds(s, comma + 1, CharClass::Blank);
        if let Some(p) = parameter(s, at) {
            crate::grammar::lemma_parameter_advances(s, at);
            parameter_is_built(s, at);
            lemma_more_parameters(s, p.end);
            let rest = more_parameters(s, p.end);
            assert(more_parameters(s, i) == seq![p] + rest);
            assert forall|k: int| 0 <= k < (seq![p] + rest).len() implies (#[trigger] (seq![p]
                + rest)[k]).rule == Rule::Parameter && parameter_of((seq![p] + rest)[k]) is Ok by {
                if k > 0 {
                    assert((seq![p] + rest)[k] == rest[k - 1]);
                }
            }
        }
    }
}

/// A parameter list that the grammar accepts is built without a structural
/// error, one parameter for each of its nodes.
pub proof fn parameter_list_is_built(s: Seq<char>, i: int)
    ensures
        method_parameter(s, i) matches Some(list) ==> list.rule == Rule::MethodParameter
            && are_parameters(list.children) && parameters_of(list.children) is Ok,
{
    if let Some(first) = parameter(s, i) {
        crate::grammar::lemma_parameter_advances(s, i);
        parameter_is_built(s, i);
        lemma_more_parameters(s, first.end);
        let rest = more_parameters(s, first.end);
        let all = seq![first] + rest;
        assert forall|k: int| 0 <= k < all.len() implies (#[trigger] all[k]).rule
            == Rule::Parameter && parameter_of(all[k]) is Ok by {
            if k > 0 {
                assert(all[k] == rest[k - 1]);
            }
        }
        lemma_parameters_are_built(all);
    }
}

/// A node of a rule among the nodes, a text.
pub proof fn lemma_last_text_some(nodes: Seq<NodeView>, rule: Rule, k: int)
    requires
        0 <= k < nodes.len(),
        nodes[k].rule == rule,
    ensures
        last_text(nodes, rule) is Some,
    decreases nodes.len(),
{
    if nodes.last().rule != rule {
        assert(nodes.drop_last()[k] == nodes[k]);
        lemma_last_text_some(nodes.drop_last(), rule, k);
    }
}

/// Whether every parameter list among `parts` is built without a
/// structural error.
pub open spec fn lists_are_built(parts: Seq<NodeView>) -> bool {
    forall|k: int|
        0 <= k < parts.len() && (#[trigger] parts[k]).rule == Rule::MethodParameter
            ==> parameters_of(parts[k].children) is Ok
}

/// Where every parameter list is built, the parameters of the method are.
proof fn lemma_method_parameters_are_built(parts: Seq<NodeView>)
    requires
        lists_are_built(parts),
    ensures
        method_parameters(parts) is Ok,
    decreases parts.len(),
{
    if parts.len() > 0 {
        assert forall|k: int|
            0 <= k < parts.drop_last().len() && (#[trigger] parts.drop_last()[k]).rule
                == Rule::MethodParameter implies parameters_of(parts.drop_last()[k].children) is Ok by {
            assert(parts.drop_last()[k] == parts[k]);
        }
        lemma_method_parameters_are_built(parts.drop_last());
        assert(parts.last() == parts[parts.len() - 1]);
    }
}

/// The body of a method that the grammar accepts has a name, and its
/// parameters have names: it is built without a structural error under any
/// markers.
pub proof fn method_is_built(
    s: Seq<char>,
    i: int,
    visibility: Visibility,
    is_static: bool,
    is_abstract: bool,
)
    ensures
        class_method_decl(s, i) matches Some(m) ==> m.rule == Rule::ClassMethodDecl && method_of(
            m,
            visibility,
            is_static,
            is_abstract,
        ) is Ok,
{
    if let Some(m) = class_method_decl(s, i) {
        let (type_node, after_type) = typed(s, i)->0;
        let (prefix, at) = if typed_method(s, i) is Some {
            (seq![type_node], after_type)
        } else {
            (Seq::<NodeView>::empty(), i)
        };
        let (nodes, end) = method_tail(s, at)->0;
        assert(m.children =~= prefix + nodes);
        let n = name(Rule::MethodIdentifier, s, at)->0;
        let open = scan(s, n.end, CharClass::Blank);
        let first = scan(s, open + 1, CharClass::Blank);
        let params = optional(method_parameter(s, first));
        let close = scan(s, end_after(params, first), CharClass::Blank);
        let ret = optional(class_identifier(s, scan(s, close + 1, CharClass::Blank)));
        assert(nodes == seq![n] + params + ret);
        parameter_list_is_built(s, first);
        let all = m.children;
        assert forall|k: int|
            0 <= k < all.len() && (#[trigger] all[k]).rule
                == Rule::MethodParameter implies parameters_of(all[k].children) is Ok by {
            if k < prefix.len() {
                assert(all[k] == prefix[k]);
            } else {
                let j = k - prefix.len();
                assert(all[k] == nodes[j]);
                if j == 0 {
                    assert(nodes[j] == n);
                } else if j - 1 < params.len() {
                    assert(nodes[j] == params[j - 1]);
                } else {
                    assert(nodes[j] == ret[j - 1 - params.len()]);
                }
            }
        }
        lemma_method_parameters_are_built(all);
        assert(all[prefix.len() as int] == n);
        lemma_last_text_some(all, Rule::MethodIdentifier, prefix.len() as int);
    }
}

/// Whether none of `parts` is the body of a member.
pub open spec fn has_no_body(parts: Seq<NodeView>) -> bool {
    forall|k: int|
        0 <= k < parts.len() ==> (#[trigger] parts[k]).rule != Rule::ClassPropertyDecl
            && parts[k].rule != Rule::ClassMethodDecl
}

/// Nodes that are no bodies change nothing of the member that the nodes
/// before them declare.
proof fn lemma_core_after(
    a: Seq<NodeView>,
    b: Seq<NodeView>,
    visibility: Visibility,
    is_static: bool,
    is_abstract: bool,
)
    requires
        has_no_body(b),
    ensures
        member_core(a + b, visibility, is_static, is_abstract) == member_core(
            a,
            visibility,
            is_static,
            is_abstract,
        ),
    decreases b.len(),
{
    if b.len() == 0 {
        assert(a + b =~= a);
    } else {
        assert((a + b).drop_last() =~= a + b.drop_last());
        assert((a + b).last() == b[b.len() - 1]);
        assert forall|k: int| 0 <= k < b.drop_last().len() implies (
        #[trigger] b.drop_last()[k]).rule != Rule::ClassPropertyDecl && b.drop_last()[k].rule
            != Rule::ClassMethodDecl by {
            assert(b.drop_last()[k] == b[k]);
        }
        lemma_core_after(a, b.drop_last(), visibility, is_static, is_abstract);
    }
}

/// The classifier markers in a row are leaves, one for each character of
/// the row.
pub proof fn lemma_classifier_row(s: Seq<char>, j: int)
    requires
        0 <= j <= s.len(),
    ensures
        j + classifiers(s, j).len() <= s.len(),
        forall|k: int|
            0 <= k < classifiers(s, j).len() ==> #[trigger] classifiers(s, j)[k] == leaf(
                Rule::Classifier,
                s,
                j + k,
                j + k + 1,
            ),
    decreases s.len() - j,
{
    if let Some(c) = classifier(s, j) {
        lemma_classifier_row(s, j + 1);
        let rest = classifiers(s, j + 1);
        assert forall|k: int| 0 <= k < classifiers(s, j).len() implies #[trigger] classifiers(
            s,
            j,
        )[k] == leaf(Rule::Classifier, s, j + k, j + k + 1) by {
            if k > 0 {
                assert((seq![c] + rest)[k] == rest[k - 1]);
            }
        }
    }
}

/// Whether the character `c` stands at a position from `from` up to, not
/// including, `to`.
pub open spec fn marks(s: Seq<char>, from: int, to: int, c: char) -> bool {
    exists|p: int| from <= p < to && #[trigger] s[p] == c
}

/// A row of classifier markers holds a classifier of one character exactly
/// where that character stands in the row.
proof fn lemma_row_has_classifier(s: Seq<char>, j: int, c: char)
    requires
        0 <= j <= s.len(),
    ensures
        has_classifier(classifiers(s, j), seq![c]) == marks(
            s,
            j,
            j + classifiers(s, j).len(),
            c,
        ),
{
    let row = classifiers(s, j);
    lemma_classifier_row(s, j);
    if has_classifier(row, seq![c]) {
        let k = choose|k: int|
            0 <= k < row.len() && (#[trigger] row[k]).rule == Rule::Classifier && row[k].text
                == seq![c];
        assert(row[k].text[0] == s[j + k]);
        assert(s[j + k] == c);
    }
    if marks(s, j, j + row.len(), c) {
        let p = choose|p: int| j <= p < j + row.len() && #[trigger] s[p] == c;
        assert(row[p - j].text =~= seq![c]);
    }
}

/// A classifier stands among two rows of nodes exactly where it stands
/// among one of them.
proof fn lemma_has_classifier_add(a: Seq<NodeView>, b: Seq<NodeView>, mark: Seq<char>)
    ensures
        has_classifier(a + b, mark) == (has_classifier(a, mark) || has_classifier(b, mark)),
{
    let all = a + b;
    if has_classifier(all, mark) {
        let k = choose|k: int|
            0 <= k < all.len() && (#[trigger] all[k]).rule == Rule::Classifier && all[k].text
                == mark;
        if k < a.len() {
            assert(a[k] == all[k]);
        } else {
            assert(b[k - a.len()] == all[k]);
        }
    }
    if has_classifier(a, mark) {
        let k = choose|k: int|
            0 <= k < a.len() && (#[trigger] a[k]).rule == Rule::Classifier && a[k].text == mark;
        assert(all[k] == a[k]);
    }
    if has_classifier(b, mark) {
        let k = choose|k: int|
            0 <= k < b.len() && (#[trigger] b[k]).rule == Rule::Classifier && b[k].text == mark;
        assert(all[k + a.len()] == b[k]);
    }
}

/// The access level of a member.
pub open spec fn member_visibility(m: MemberView) -> Visibility {
    match m {
        MemberView::Attribute(a) => a.visibility,
        MemberView::Method(m) => m.visibility,
    }
}

/// Whether a member is static.
pub open spec fn member_is_static(m: MemberView) -> bool {
    match m {
        MemberView::Attribute(a) => a.is_static,
        MemberView::Method(m) => m.is_static,
    }
}

/// A member that the grammar accepts is built without a structural error,
/// and its markers are read from the text: its access level is that of the
/// visibility marker it opens with, or none; it is static exactly where `$`
/// stands among the classifier markers before or after its body; and a
/// method is abstract exactly where `*` stands among them.
pub proof fn member_is_built(s: Seq<char>, i: int, shape: BodyShape)
    requires
        0 <= i <= s.len(),
    ensures
        member_decl(s, i, shape) matches Some(d) ==> {
            let after_marker = end_after(optional(visibility(s, i)), i);
            let body_at = end_after(classifiers(s, after_marker), after_marker);
            let body = member_body(s, body_at, shape)->0;
            &&& d.rule == Rule::MemberDecl
            &&& member_of(d) matches Ok(m) && {
                &&& m is Method <==> body.rule == Rule::ClassMethodDecl
                &&& member_visibility(m) == if visibility(s, i) is Some {
                    visibility_of(s[i])
                } else {
                    Visibility::Unspecified
                }
                &&& member_is_static(m) == (marks(s, after_marker, body_at, '$') || marks(
                    s,
                    body.end,
                    d.end,
                    '$',
                ))
                &&& m matches MemberView::Method(method) ==> method.is_abstract == (marks(
                    s,
                    after_marker,
                    body_at,
                    '*',
                ) || marks(s, body.end, d.end, '*'))
            }
        },
{
    if let Some(d) = member_decl(s, i, shape) {
        let marker = optional(visibility(s, i));
        let after_marker = end_after(marker, i);
        let leading = classifiers(s, after_marker);
        lemma_classifiers_end(s, after_marker);
        lemma_classifier_row(s, after_marker);
        let body_at = end_after(leading, after_marker);
        let body = member_body(s, body_at, shape)->0;
        lemma_member_body_advances(s, body_at, shape);
        let trailing = classifiers(s, body.end);
        lemma_classifiers_end(s, body.end);
        lemma_classifier_row(s, body.end);
        let parts = d.children;
        assert(parts == marker + leading + seq![body] + trailing);
        let front = marker + leading;
        let declared = declared_visibility(parts);
        let is_static = has_classifier(parts, "$"@);
        let is_abstract = has_classifier(parts, "*"@);

        // The body is the one body among the parts.
        assert(has_no_body(front)) by {
            assert forall|k: int| 0 <= k < front.len() implies (#[trigger] front[k]).rule
                != Rule::ClassPropertyDecl && front[k].rule != Rule::ClassMethodDecl by {
                if k < marker.len() {
                    assert(front[k] == marker[k]);
                } else {
                    assert(front[k] == leading[k - marker.len()]);
                }
            }
        }
        assert(has_no_body(trailing));
        assert(has_no_body(Seq::<NodeView>::empty()));
        lemma_core_after(Seq::empty(), front, declared, is_static, is_abstract);
        assert(Seq::<NodeView>::empty() + front =~= front);
        lemma_core_after(front + seq![body], trailing, declared, is_static, is_abstract);
        assert((front + seq![body]).drop_last() =~= front);
        assert((front + seq![body]).last() == body);
        attribute_is_built(s, body_at, declared, is_static);
        method_is_built(s, body_at, declared, is_static, is_abstract);

        // The markers.
        reveal_strlit("$");
        reveal_strlit("*");
        assert("$"@ =~= seq!['$']);
        assert("*"@ =~= seq!['*']);
        lemma_has_classifier_add(front + seq![body], trailing, "$"@);
        lemma_has_classifier_add(front, seq![body], "$"@);
        lemma_has_classifier_add(marker, leading, "$"@);
        lemma_has_classifier_add(front + seq![body], trailing, "*"@);
        lemma_has_classifier_add(front, seq![body], "*"@);
        lemma_has_classifier_add(marker, leading, "*"@);
        lemma_row_has_classifier(s, after_marker, '$');
        lemma_row_has_classifier(s, body.end, '$');
        lemma_row_has_classifier(s, after_marker, '*');
        lemma_row_has_classifier(s, body.end, '*');
        assert(!has_classifier(marker, "$"@) && !has_classifier(marker, "*"@));
        assert(!has_classifier(seq![body], "$"@) && !has_classifier(seq![body], "*"@));

        // The access level.
        lemma_last_text_add(front + seq![body], trailing, Rule::Visibility);
        lemma_last_text_none(trailing, Rule::Visibility);
        lemma_last_text_add(front, seq![body], Rule::Visibility);
        lemma_last_text_one(body, Rule::Visibility);
        lemma_last_text_add(marker, leading, Rule::Visibility);
        lemma_last_text_none(leading, Rule::Visibility);
        if let Some(v) = visibility(s, i) {
            lemma_last_text_one(v, Rule::Visibility);
            assert(v.text[0] == s[i]);
        } else {
            lemma_last_text_none(marker, Rule::Visibility);
        }
        lemma_core_carries_markers(parts, declared, is_static, is_abstract);
    }
}

/// A member statement that the grammar accepts has its target and its
/// member: it is built without a structural error, for the class that the
/// text names.
pub proof fn member_statement_is_built(s: Seq<char>, i: int, shape: BodyShape)
    ensures
        member_stmt(s, i, shape) matches Some(t) ==> {
            &&& t.rule == Rule::MemberStmt
            &&& class_identifier(s, i) matches Some(id)
            &&& member_stmt_of(t) matches Ok(StmtView::Member { target, member })
            &&& target == id.text
        },
{
    if let Some(t) = member_stmt(s, i, shape) {
        let id = class_identifier(s, i)->0;
        lemma_identifier_advances(s, i);
        let colon = scan(s, id.end, CharClass::Blank);
        lemma_scan_bounds(s, id.end, CharClass::Blank);
        let at = scan(s, colon + 1, CharClass::Blank);
        lemma_scan_bounds(s, colon + 1, CharClass::Blank);
        member_is_built(s, at, shape);
    }
}

/// No member statement among the nodes, no member.
proof fn lemma_class_members_none(parts: Seq<NodeView>)
    requires
        forall|k: int| 0 <= k < parts.len() ==> (#[trigger] parts[k]).rule != Rule::MemberStmt,
    ensures
        class_members(parts) == Ok::<Seq<MemberView>, ParseErrorView>(Seq::empty()),
    decreases parts.len(),
{
    if parts.len() > 0 {
        assert forall|k: int| 0 <= k < parts.drop_last().len() implies (
        #[trigger] parts.drop_last()[k]).rule != Rule::MemberStmt by {
            assert(parts.drop_last()[k] == parts[k]);
        }
        lemma_class_members_none(parts.drop_last());
        assert(parts.last() == parts[parts.len() - 1]);
    }
}

/// A class declaration that the grammar accepts has its identifier: it is
/// built without a structural error, as the class of that name in the
/// default namespace, without members, whatever suffixes it carries.
pub proof fn class_is_built(s: Seq<char>, i: int)
    ensures
        class(s, i) matches Some(t) ==> {
            &&& t.rule == Rule::Class
            &&& class_head(s, i) matches Some(id)
            &&& is_identifier(id.text)
            &&& class_of(t) == Ok::<ClassView, ParseErrorView>(simple_class(id.text))
        },
{
    if let Some(t) = class(s, i) {
        let id = class_head(s, i)->0;
        let at = scan(s, i + "class"@.len(), CharClass::Blank);
        identifier_node_is_well_formed(s, at);
        identifier_is_unqualified(id.text);
        let suffix = optional(generic(s, id.end));
        let after_suffix = end_after(suffix, id.end);
        let tag = optional(label(s, scan(s, after_suffix, CharClass::Blank)));
        let after_tag = end_after(tag, after_suffix);
        let note = optional(annotation(s, scan(s, after_tag, CharClass::Blank)));
        let rest = suffix + tag + note;
        assert(t.children =~= seq![id] + rest);
        assert forall|k: int| 0 <= k < rest.len() implies (#[trigger] rest[k]).rule
            != Rule::ClassIdentifier && rest[k].rule != Rule::MemberStmt by {
            if k < suffix.len() {
                assert(rest[k] == suffix[k]);
            } else if k - suffix.len() < tag.len() {
                assert(rest[k] == tag[k - suffix.len()]);
            } else {
                assert(rest[k] == note[k - suffix.len() - tag.len()]);
            }
        }
        lemma_last_text_add(seq![id], rest, Rule::ClassIdentifier);
        lemma_last_text_none(rest, Rule::ClassIdentifier);
        lemma_last_text_one(id, Rule::ClassIdentifier);
        assert forall|k: int| 0 <= k < t.children.len() implies (#[trigger] t.children[k]).rule
            != Rule::MemberStmt by {
            if k > 0 {
                assert(t.children[k] == rest[k - 1]);
            }
        }
        lemma_class_members_none(t.children);
    }
}

/// A relation statement that the grammar accepts has its three parts: it
/// is built without a structural error, between the classes that the text
/// names, and its kind and line are those that the table gives for its
/// arrow.
pub proof fn relation_is_built(s: Seq<char>, i: int)
    ensures
        relation_stmt(s, i) matches Some(t) ==> {
            let from = class_identifier(s, i)->0;
            let a = arrow(s, scan(s, from.end, CharClass::Blank))->0;
            let to = class_identifier(s, scan(s, a.end, CharClass::Blank))->0;
            &&& t.rule == Rule::RelationStmt
            &&& is_arrow(a.rule)
            &&& relation_of(t) == Ok::<RelationView, ParseErrorView>(
                RelationView {
                    from: from.text,
                    to: to.text,
                    kind: arrow_style(a.rule).0,
                    line: arrow_style(a.rule).1,
                    label_from: None,
                    label_to: None,
                },
            )
        },
{
}

/// Every statement that the grammar accepts is built without a structural
/// error; a comment and a note give no statement.
pub proof fn statement_is_built(s: Seq<char>, i: int)
    ensures
        statement(s, i) matches Some(n) ==> collect(n).error is None && collect(
            n,
        ).statements.len() <= 1,
{
    if let Some(n) = statement(s, i) {
        class_is_built(s, i);
        member_statement_is_built(s, i, BodyShape::Any);
        relation_is_built(s, i);
        if class(s, i) is None && member_stmt(s, i, BodyShape::Any) is None && relation_stmt(
            s,
            i,
        ) is None {
            assert(n.children.len() == 0);
            assert(n.rule == Rule::Comment || n.rule == Rule::Note);
        }
    }
}

/// Every statement of a document that the grammar accepts is built
/// without a structural error.
proof fn lemma_statements_are_built(s: Seq<char>, i: int)
    ensures
        statements(s, i) matches Ok(nodes) ==> forall|k: int|
            0 <= k < nodes.len() ==> collect(#[trigger] nodes[k]).error is None,
    decreases s.len() - i,
{
    if let Ok(nodes) = statements(s, i) {
        let at = scan(s, i, CharClass::Layout);
        if i >= 0 && at < s.len() {
            lemma_scan_bounds(s, i, CharClass::Layout);
            let n = statement(s, at)->0;
            lemma_statement_advances(s, at);
            statement_is_built(s, at);
            lemma_statements_are_built(s, n.end);
            let rest = statements(s, n.end)->Ok_0;
            assert(nodes == seq![n] + rest);
            assert forall|k: int| 0 <= k < nodes.len() implies collect(
                #[trigger] nodes[k],
            ).error is None by {
                if k > 0 {
                    assert(nodes[k] == rest[k - 1]);
                }
            }
        }
    }
}

/// Children that are built without a structural error are collected
/// without one.
proof fn lemma_collect_without_error(t: NodeView, n: nat)
    requires
        n <= t.children.len(),
        forall|k: int| 0 <= k < t.children.len() ==> collect(#[trigger] t.children[k]).error is None,
    ensures
        collect_first(t, n).error is None,
    decreases n,
{
    if n > 0 {
        lemma_collect_without_error(t, (n - 1) as nat);
    }
}

/// No structural error arises from a document: what the grammar accepts,
/// the builders can build. A document gives a diagram or a syntax error.
pub proof fn documents_have_no_structural_errors(text: Seq<char>)
    ensures
        parse_outcome(text) matches Err(e) ==> e is Syntax,
        parse_outcome(text) is Ok <==> document(text) is Ok,
{
    if let Ok(tree) = document(text) {
        let at = scan(text, 0, CharClass::Layout);
        lemma_statements_are_built(text, at + "classDiagram"@.len());
        lemma_collect_without_error(tree, tree.children.len());
    }
}

/// The text of an arrow.
pub open spec fn arrow_lexeme(rule: Rule) -> Seq<char> {
    match rule {
        Rule::Aggregation => "o--"@,
        Rule::Composition => "*--"@,
        Rule::Inheritance => "<|--"@,
        Rule::Dependency => "<.."@,
        Rule::Realization => "<|.."@,
        Rule::Link => "--"@,
        Rule::Association => "<--"@,
        _ => Seq::empty(),
    }
}

/// What is matched as an arrow is the text of that arrow.
pub proof fn arrow_is_its_lexeme(s: Seq<char>, i: int)
    ensures
        arrow(s, i) matches Some(a) ==> {
            &&& is_arrow(a.rule)
            &&& word_at(s, i, arrow_lexeme(a.rule))
            &&& a == leaf(a.rule, s, i, i + arrow_lexeme(a.rule).len())
            &&& a.text == arrow_lexeme(a.rule)
        },
{
}

/// The text of an arrow, wherever it stands, is matched as that arrow and
/// as no other: no arrow opens another.
pub proof fn lexeme_is_its_arrow(s: Seq<char>, i: int, rule: Rule)
    requires
        is_arrow(rule),
        word_at(s, i, arrow_lexeme(rule)),
    ensures
        arrow(s, i) == Some(leaf(rule, s, i, i + arrow_lexeme(rule).len())),
{
    reveal_strlit("o--");
    reveal_strlit("*--");
    reveal_strlit("<|--");
    reveal_strlit("<|..");
    reveal_strlit("<..");
    reveal_strlit("<--");
    reveal_strlit("--");
    lemma_word_at(s, i, "o--"@);
    lemma_word_at(s, i, "*--"@);
    lemma_word_at(s, i, "<|--"@);
    lemma_word_at(s, i, "<|.."@);
    lemma_word_at(s, i, "<.."@);
    lemma_word_at(s, i, "<--"@);
    lemma_word_at(s, i, "--"@);
    let word = arrow_lexeme(rule);
    assert(s[i] == word[0] && s[i + 1] == word[1]);
    assert("o--"@[0] == 'o' && "*--"@[0] == '*' && "--"@[0] == '-');
    assert("<|--"@[0] == '<' && "<|--"@[1] == '|' && "<|--"@[2] == '-');
    assert("<|.."@[0] == '<' && "<|.."@[1] == '|' && "<|.."@[2] == '.');
    assert("<.."@[0] == '<' && "<.."@[1] == '.');
    assert("<--"@[0] == '<' && "<--"@[1] == '-');
    if rule == Rule::Inheritance || rule == Rule::Realization {
        assert(s[i + 2] == word[2]);
    }
}

/// A relation statement follows the table: where the text of an arrow
/// stands between the two identifiers, the relation has the kind and the
/// line that the table gives for that arrow.
pub proof fn relation_follows_the_table(s: Seq<char>, i: int, rule: Rule)
    requires
        is_arrow(rule),
        class_identifier(s, i) matches Some(from) && word_at(
            s,
            scan(s, from.end, CharClass::Blank),
            arrow_lexeme(rule),
        ),
    ensures
        relation_stmt(s, i) matches Some(t) ==> relation_of(t) matches Ok(r) && (r.kind, r.line)
            == arrow_style(rule),
{
    let from = class_identifier(s, i)->0;
    lexeme_is_its_arrow(s, scan(s, from.end, CharClass::Blank), rule);
    relation_is_built(s, i);
}

/// Whether the tree `t` is at most `d` nodes deep.
pub open spec fn is_within_depth(t: NodeView, d: nat) -> bool
    decreases d,
{
    d > 0 && forall|k: int|
        0 <= k < t.children.len() ==> is_within_depth(#[trigger] t.children[k], (d - 1) as nat)
}

/// Whether every tree among `nodes` is at most `d` nodes deep.
pub open spec fn are_within_depth(nodes: Seq<NodeView>, d: nat) -> bool {
    forall|k: int| 0 <= k < nodes.len() ==> is_within_depth(#[trigger] nodes[k], d)
}

/// A tree that is at most `d` deep is at most `e` deep for every `e` from
/// `d` on.
pub proof fn lemma_depth_grows(t: NodeView, d: nat, e: nat)
    requires
        is_within_depth(t, d),
        d <= e,
    ensures
        is_within_depth(t, e),
    decreases d,
{
    assert forall|k: int| 0 <= k < t.children.len() implies is_within_depth(
        #[trigger] t.children[k],
        (e - 1) as nat,
    ) by {
        lemma_depth_grows(t.children[k], (d - 1) as nat, (e - 1) as nat);
    }
}

/// Two rows of trees that are at most `d` deep make a row of such trees.
proof fn lemma_depth_add(a: Seq<NodeView>, b: Seq<NodeView>, d: nat)
    requires
        are_within_depth(a, d),
        are_within_depth(b, d),
    ensures
        are_within_depth(a + b, d),
{
    assert forall|k: int| 0 <= k < (a + b).len() implies is_within_depth(
        #[trigger] (a + b)[k],
        d,
    ) by {
        if k < a.len() {
            assert((a + b)[k] == a[k]);
        } else {
            assert((a + b)[k] == b[k - a.len()]);
        }
    }
}

/// A row of one tree, or of none, is as deep as the tree.
proof fn lemma_depth_optional(node: Option<NodeView>, d: nat)
    requires
        node matches Some(n) ==> is_within_depth(n, d),
    ensures
        are_within_depth(optional(node), d),
{
}

/// A node over trees that are at most `d` deep is at most `d + 1` deep.
proof fn lemma_depth_branch(t: NodeView, d: nat)
    requires
        are_within_depth(t.children, d),
    ensures
        is_within_depth(t, d + 1),
{
}

/// A type with a name, and a name alone, are two nodes deep.
proof fn lemma_named_depth(rule: Rule, leaf_rule: Rule, s: Seq<char>, i: int)
    ensures
        typed_name(rule, leaf_rule, s, i) matches Some(n) ==> is_within_depth(n, 2),
        crate::grammar::bare_name(rule, leaf_rule, s, i) matches Some(n) ==> is_within_depth(n, 2),
{
    reveal_with_fuel(is_within_depth, 2);
}

/// The parameters after the first are two nodes deep.
proof fn lemma_more_parameters_depth(s: Seq<char>, i: int)
    requires
        0 <= i <= s.len(),
    ensures
        are_within_depth(more_parameters(s, i), 2),
    decreases s.len() - i,
{
    let comma = scan(s, i, CharClass::Blank);
    lemma_scan_bounds(s, i, CharClass::Blank);
    if crate::text::is_at(s, comma, ',') {
        let at = scan(s, comma + 1, CharClass::Blank);
        lemma_scan_bounds(s, comma + 1, CharClass::Blank);
        if let Some(p) = parameter(s, at) {
            crate::grammar::lemma_parameter_advances(s, at);
            lemma_named_depth(Rule::Parameter, Rule::VariableIdentifier, s, at);
            lemma_more_parameters_depth(s, p.end);
            lemma_depth_add(seq![p], more_parameters(s, p.end), 2);
        }
    }
}

/// A parameter list is three nodes deep.
proof fn lemma_parameter_list_depth(s: Seq<char>, i: int)
    ensures
        method_parameter(s, i) matches Some(n) ==> is_within_depth(n, 3),
{
    if let Some(first) = parameter(s, i) {
        crate::grammar::lemma_parameter_advances(s, i);
        lemma_named_depth(Rule::Parameter, Rule::VariableIdentifier, s, i);
        lemma_more_parameters_depth(s, first.end);
        lemma_depth_add(seq![first], more_parameters(s, first.end), 2);
        lemma_depth_branch(method_parameter(s, i)->0, 2);
    }
}

/// The body of a member is four nodes deep.
proof fn lemma_body_depth(s: Seq<char>, i: int, shape: BodyShape)
    ensures
        member_body(s, i, shape) matches Some(n) ==> is_within_depth(n, 4),
{
    if let Some(body) = member_body(s, i, shape) {
        if body.rule == Rule::ClassPropertyDecl {
            lemma_named_depth(Rule::ClassPropertyDecl, Rule::VariableIdentifier, s, i);
            lemma_depth_grows(body, 2, 4);
        } else {
            let (type_node, after_type) = typed(s, i)->0;
            let (prefix, at) = if typed_method(s, i) is Some {
                (seq![type_node], after_type)
            } else {
                (Seq::<NodeView>::empty(), i)
            };
            let (nodes, end) = method_tail(s, at)->0;
            let n = name(Rule::MethodIdentifier, s, at)->0;
            let open = scan(s, n.end, CharClass::Blank);
            let first = scan(s, open + 1, CharClass::Blank);
            let list = method_parameter(s, first);
            let params = optional(list);
            let close = scan(s, end_after(params, first), CharClass::Blank);
            let back = class_identifier(s, scan(s, close + 1, CharClass::Blank));
            let ret = optional(back);
            assert(nodes == seq![n] + params + ret);
            assert(body.children =~= prefix + nodes);
            lemma_parameter_list_depth(s, first);
            lemma_depth_optional(list, 3);
            if let Some(r) = back {
                lemma_depth_grows(r, 1, 3);
            }
            lemma_depth_optional(back, 3);
            lemma_depth_grows(n, 1, 3);
            lemma_depth_add(seq![n], params, 3);
            lemma_depth_add(seq![n] + params, ret, 3);
            if typed_method(s, i) is Some {
                lemma_depth_grows(type_node, 1, 3);
            }
            lemma_depth_add(prefix, nodes, 3);
            lemma_depth_branch(body, 3);
        }
    }
}

/// A row of classifier markers is a row of leaves.
proof fn lemma_classifiers_depth(s: Seq<char>, j: int)
    requires
        0 <= j <= s.len(),
    ensures
        are_within_depth(classifiers(s, j), 1),
{
    lemma_classifier_row(s, j);
}

/// A member statement is six nodes deep.
proof fn lemma_member_statement_depth(s: Seq<char>, i: int, shape: BodyShape)
    ensures
        member_stmt(s, i, shape) matches Some(n) ==> is_within_depth(n, 6),
{
    if let Some(t) = member_stmt(s, i, shape) {
        let id = class_identifier(s, i)->0;
        lemma_identifier_advances(s, i);
        let colon = scan(s, id.end, CharClass::Blank);
        lemma_scan_bounds(s, id.end, CharClass::Blank);
        let at = scan(s, colon + 1, CharClass::Blank);
        lemma_scan_bounds(s, colon + 1, CharClass::Blank);
        let d = member_decl(s, at, shape)->0;
        let marker = optional(visibility(s, at));
        let after_marker = end_after(marker, at);
        let leading = classifiers(s, after_marker);
        lemma_classifiers_end(s, after_marker);
        let body_at = end_after(leading, after_marker);
        let body = member_body(s, body_at, shape)->0;
        lemma_member_body_advances(s, body_at, shape);
        let trailing = classifiers(s, body.end);
        lemma_classifiers_depth(s, after_marker);
        lemma_classifiers_depth(s, body.end);
        lemma_body_depth(s, body_at, shape);
        assert(are_within_depth(marker, 4)) by {
            if let Some(v) = visibility(s, at) {
                lemma_depth_grows(v, 1, 4);
            }
        }
        assert(are_within_depth(leading, 4)) by {
            assert forall|k: int| 0 <= k < leading.len() implies is_within_depth(
                #[trigger] leading[k],
                4,
            ) by {
                lemma_depth_grows(leading[k], 1, 4);
            }
        }
        assert(are_within_depth(trailing, 4)) by {
            assert forall|k: int| 0 <= k < trailing.len() implies is_within_depth(
                #[trigger] trailing[k],
                4,
            ) by {
                lemma_depth_grows(trailing[k], 1, 4);
            }
        }
        lemma_depth_add(marker, leading, 4);
        lemma_depth_add(marker + leading, seq![body], 4);
        lemma_depth_add(marker + leading + seq![body], trailing, 4);
        lemma_depth_branch(d, 4);
        lemma_depth_grows(id, 1, 5);
        assert(t.children =~= seq![id] + seq![d]);
        lemma_depth_add(seq![id], seq![d], 5);
        lemma_depth_branch(t, 5);
    }
}

/// A statement is six nodes deep.
proof fn lemma_statement_depth(s: Seq<char>, i: int)
    ensures
        statement(s, i) matches Some(n) ==> is_within_depth(n, 6),
{
    if let Some(n) = statement(s, i) {
        lemma_member_statement_depth(s, i, BodyShape::Any);
        if class(s, i) is Some {
            reveal_with_fuel(is_within_depth, 2);
            let id = class_head(s, i)->0;
            let suffix = optional(generic(s, id.end));
            let after_suffix = end_after(suffix, id.end);
            let tag = optional(label(s, scan(s, after_suffix, CharClass::Blank)));
            let after_tag = end_after(tag, after_suffix);
            let note = optional(annotation(s, scan(s, after_tag, CharClass::Blank)));
            assert(are_within_depth(seq![id], 1));
            assert(are_within_depth(suffix, 1));
            assert(are_within_depth(tag, 1));
            assert(are_within_depth(note, 1));
            lemma_depth_add(seq![id], suffix, 1);
            lemma_depth_add(seq![id] + suffix, tag, 1);
            lemma_depth_add(seq![id] + suffix + tag, note, 1);
            lemma_depth_branch(n, 1);
            lemma_depth_grows(n, 2, 6);
        } else if member_stmt(s, i, BodyShape::Any) is Some {
        } else if relation_stmt(s, i) is Some {
            reveal_with_fuel(is_within_depth, 2);
            lemma_depth_grows(n, 2, 6);
        } else {
            assert(n.children.len() == 0);
        }
    }
}

/// The statements of a document are six nodes deep.
proof fn lemma_statements_depth(s: Seq<char>, i: int)
    ensures
        statements(s, i) matches Ok(nodes) ==> are_within_depth(nodes, 6),
    decreases s.len() - i,
{
    if let Ok(nodes) = statements(s, i) {
        let at = scan(s, i, CharClass::Layout);
        if i >= 0 && at < s.len() {
            lemma_scan_bounds(s, i, CharClass::Layout);
            let n = statement(s, at)->0;
            lemma_statement_advances(s, at);
            lemma_statement_depth(s, at);
            lemma_statements_depth(s, n.end);
            lemma_depth_add(seq![n], statements(s, n.end)->Ok_0, 6);
        }
    }
}

/// The match tree of every document is at most seven nodes deep, however
/// long the document: the grammar nests no construct in itself. What walks
/// the tree of a document goes no deeper.
pub proof fn document_tree_is_shallow(text: Seq<char>)
    ensures
        document(text) matches Ok(tree) ==> is_within_depth(tree, 7),
{
    if let Ok(tree) = document(text) {
        let at = scan(text, 0, CharClass::Layout);
        lemma_statements_depth(text, at + "classDiagram"@.len());
        lemma_depth_branch(tree, 6);
    }
}

} // verus!
