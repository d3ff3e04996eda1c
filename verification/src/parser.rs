//! From a document to a diagram.
//!
//! A document is matched against the grammar; the statements of the match
//! tree are built, in document order, into classes, members and relations;
//! and the statements are applied, one after the other, to a diagram that
//! starts empty.
//!
//! A construct that matched the grammar but lacks a part that its builder
//! needs is a structural error. The policy is strict: the first structural
//! error ends the parse, and no diagram is returned.

use vstd::prelude::*;
use vstd::string::*;
use crate::laws::{is_consistent, parsed_diagram_is_consistent};
use crate::recognizer::{parse_tree, MermaidParser, SyntaxError, SyntaxErrorView};
use crate::tree_laws::documents_have_no_structural_errors;
use crate::text::same_text;
use crate::tree::{last_text, lemma_children_views, views, Node, NodeView, Rule};
use crate::types::{
    empty_diagram, empty_namespace, namespace_view, text_of, visibility_of, Attribute,
    AttributeView, Class, ClassView, Diagram, DiagramView, LineStyle, Member, MemberView, Method,
    MethodView, Namespace, NamespaceView, Parameter, ParameterView, Relation, RelationKind,
    RelationView, Visibility,
};

verus! {

/// Why a document gave no diagram.
#[derive(Debug)]
pub enum ParseError {
    /// The document does not match the grammar.
    Syntax(SyntaxError),
    /// A construct matched the grammar but lacks a part it needs; the text
    /// names the part.
    Custom(String),
}

/// The model of a [`ParseError`].
pub enum ParseErrorView {
    Syntax(SyntaxErrorView),
    Custom(Seq<char>),
}

impl View for ParseError {
    type V = ParseErrorView;

    open spec fn view(&self) -> ParseErrorView {
        match self {
            ParseError::Syntax(e) => ParseErrorView::Syntax(e@),
            ParseError::Custom(reason) => ParseErrorView::Custom(reason@),
        }
    }
}

/// A statement of a document, built.
#[derive(Debug)]
pub enum Stmt {
    /// The declaration of a class.
    Class(Class),
    /// The declaration of a member of the class called `target`.
    Member { target: String, member: Member },
    /// The declaration of a relation.
    Relation(Relation),
}

/// The model of a [`Stmt`].
pub enum StmtView {
    Class(ClassView),
    Member { target: Seq<char>, member: MemberView },
    Relation(RelationView),
}

impl View for Stmt {
    type V = StmtView;

    open spec fn view(&self) -> StmtView {
        match self {
            Stmt::Class(c) => StmtView::Class(c@),
            Stmt::Member { target, member } => StmtView::Member {
                target: target@,
                member: member@,
            },
            Stmt::Relation(r) => StmtView::Relation(r@),
        }
    }
}

/// Whether the result `r` is the result `expected`.
pub open spec fn yields<T: View>(
    r: Result<T, ParseError>,
    expected: Result<T::V, ParseErrorView>,
) -> bool {
    match (r, expected) {
        (Ok(value), Ok(model)) => value@ == model,
        (Err(error), Err(model)) => error@ == model,
        _ => false,
    }
}

/// The structural error that names `reason`.
fn missing(reason: &str) -> (error: ParseError)
    ensures
        error@ == ParseErrorView::Custom(reason@),
{
    ParseError::Custom(reason.to_owned())
}

/// The greatest position among the first `n` characters of `s` at which the
/// namespace delimiter `::` stands in full.
pub open spec fn last_delimiter(s: Seq<char>, n: int) -> Option<int>
    decreases n,
{
    if n < 2 || n > s.len() {
        None
    } else if s[n - 2] == ':' && s[n - 1] == ':' {
        Some(n - 2)
    } else {
        last_delimiter(s, n - 1)
    }
}

/// The namespace and the simple name of the class called `s`: what stands
/// before and after the last `::`, or no namespace and the whole of `s`.
pub open spec fn split(s: Seq<char>) -> (Seq<char>, Seq<char>) {
    match last_delimiter(s, s.len() as int) {
        Some(i) => (s.subrange(0, i), s.subrange(i + 2, s.len() as int)),
        None => (Seq::empty(), s),
    }
}

/// The last delimiter stands at a position of `s`, and no delimiter stands
/// after it.
pub proof fn lemma_last_delimiter(s: Seq<char>, n: int)
    requires
        0 <= n <= s.len(),
    ensures
        match last_delimiter(s, n) {
            Some(i) => 0 <= i && i + 2 <= n && s[i] == ':' && s[i + 1] == ':' && forall|j: int|
                i < j && j + 2 <= n ==> !(s[j] == ':' && #[trigger] s[j + 1] == ':'),
            None => forall|j: int| 0 <= j && j + 2 <= n ==> !(s[j] == ':' && #[trigger] s[j + 1]
                == ':'),
        },
    decreases n,
{
    if n >= 2 && !(s[n - 2] == ':' && s[n - 1] == ':') {
        lemma_last_delimiter(s, n - 1);
    }
}

/// Splits the name of a class into its namespace and its simple name at the
/// last `::`. A name without `::` is a simple name in the default namespace.
pub fn split_namespace(fq: &str) -> (parts: (&str, &str))
    ensures
        parts.0@ == split(fq@).0,
        parts.1@ == split(fq@).1,
{
    let mut found: Option<usize> = None;
    let mut colon_before = false;
    let mut n: usize = 0;
    let len = fq.unicode_len();
    for c in it: fq.chars()
        invariant
            it.seq() == fq@,
            n == it.index(),
            n <= len == fq@.len(),
            colon_before == (n > 0 && fq@[n - 1] == ':'),
            match found {
                Some(i) => last_delimiter(fq@, n as int) == Some(i as int),
                None => last_delimiter(fq@, n as int) is None,
            },
    {
        if colon_before && c == ':' {
            found = Some(n - 1);
        }
        colon_before = c == ':';
        n = n + 1;
    }
    match found {
        Some(i) => {
            proof {
                lemma_last_delimiter(fq@, n as int);
            }
            (fq.substring_char(0, i), fq.substring_char(i + 2, n))
        },
        None => {
            assert(fq@.subrange(0, 0) =~= Seq::<char>::empty());
            (fq.substring_char(0, 0), fq)
        },
    }
}

/// The structural error that names `reason`, as a model.
pub open spec fn lacks(reason: Seq<char>) -> ParseErrorView {
    ParseErrorView::Custom(reason)
}

/// The parameter that the node `p` declares: its name is the text of the
/// last variable identifier among the children of `p`, and its type that
/// of the last class identifier, if there is one. Without a name, the
/// parameter is a structural error.
pub open spec fn parameter_of(p: NodeView) -> Result<ParameterView, ParseErrorView> {
    match last_text(p.children, Rule::VariableIdentifier) {
        Some(name) => Ok(
            ParameterView { name, data_type: last_text(p.children, Rule::ClassIdentifier) },
        ),
        None => Err(lacks("param name missing"@)),
    }
}

/// The parameters that the nodes `parts` declare, in order: one for each
/// node of the parameter rule. The first one that is a structural error is
/// the outcome.
pub open spec fn parameters_of(parts: Seq<NodeView>) -> Result<
    Seq<ParameterView>,
    ParseErrorView,
>
    decreases parts.len(),
{
    if parts.len() == 0 {
        Ok(Seq::empty())
    } else {
        match parameters_of(parts.drop_last()) {
            Ok(before) => if parts.last().rule == Rule::Parameter {
                match parameter_of(parts.last()) {
                    Ok(p) => Ok(before.push(p)),
                    Err(e) => Err(e),
                }
            } else {
                Ok(before)
            },
            Err(e) => Err(e),
        }
    }
}

/// The parameters of a method with the given parts: those of its last
/// parameter list, or none. A structural error in any of its parameter
/// lists is the outcome, the first one first.
pub open spec fn method_parameters(parts: Seq<NodeView>) -> Result<
    Seq<ParameterView>,
    ParseErrorView,
>
    decreases parts.len(),
{
    if parts.len() == 0 {
        Ok(Seq::empty())
    } else {
        match method_parameters(parts.drop_last()) {
            Ok(before) => if parts.last().rule == Rule::MethodParameter {
                parameters_of(parts.last().children)
            } else {
                Ok(before)
            },
            Err(e) => Err(e),
        }
    }
}

/// The attribute that the body `a` declares under the given markers.
pub open spec fn attribute_of(a: NodeView, visibility: Visibility, is_static: bool) -> Result<
    AttributeView,
    ParseErrorView,
> {
    match last_text(a.children, Rule::VariableIdentifier) {
        Some(name) => Ok(
            AttributeView {
                visibility,
                name,
                data_type: last_text(a.children, Rule::ClassIdentifier),
                is_static,
            },
        ),
        None => Err(lacks("attr name missing"@)),
    }
}

/// The method that the body `m` declares under the given markers. Its
/// return type is the text of the last class identifier among the children
/// of `m`, whether that stands before the name or after the parameters.
pub open spec fn method_of(
    m: NodeView,
    visibility: Visibility,
    is_static: bool,
    is_abstract: bool,
) -> Result<MethodView, ParseErrorView> {
    match method_parameters(m.children) {
        Ok(parameters) => match last_text(m.children, Rule::MethodIdentifier) {
            Some(name) => Ok(
                MethodView {
                    visibility,
                    name,
                    parameters,
                    return_type: last_text(m.children, Rule::ClassIdentifier),
                    is_static,
                    is_abstract,
                },
            ),
            None => Err(lacks("method name missing"@)),
        },
        Err(e) => Err(e),
    }
}

/// The access level that the text of a visibility node stands for: that of
/// its first character.
pub open spec fn marker_of(text: Seq<char>) -> Visibility {
    if text.len() > 0 {
        visibility_of(text[0])
    } else {
        Visibility::Unspecified
    }
}

/// The access level that the parts of a member declare: that of the last
/// visibility node among them, or none.
pub open spec fn declared_visibility(parts: Seq<NodeView>) -> Visibility {
    match last_text(parts, Rule::Visibility) {
        Some(text) => marker_of(text),
        None => Visibility::Unspecified,
    }
}

/// Whether one of `parts` is a classifier with the text `mark`.
pub open spec fn has_classifier(parts: Seq<NodeView>, mark: Seq<char>) -> bool {
    exists|i: int|
        0 <= i < parts.len() && (#[trigger] parts[i]).rule == Rule::Classifier && parts[i].text
            == mark
}

/// The member that the bodies among `parts` declare under the given
/// markers: the bodies are built in order, the first structural error is
/// the outcome, and otherwise the last body gives the member, if there is a
/// body at all.
pub open spec fn member_core(
    parts: Seq<NodeView>,
    visibility: Visibility,
    is_static: bool,
    is_abstract: bool,
) -> Result<Option<MemberView>, ParseErrorView>
    decreases parts.len(),
{
    if parts.len() == 0 {
        Ok(None)
    } else {
        match member_core(parts.drop_last(), visibility, is_static, is_abstract) {
            Ok(before) => if parts.last().rule == Rule::ClassPropertyDecl {
                match attribute_of(parts.last(), visibility, is_static) {
                    Ok(a) => Ok(Some(MemberView::Attribute(a))),
                    Err(e) => Err(e),
                }
            } else if parts.last().rule == Rule::ClassMethodDecl {
                match method_of(parts.last(), visibility, is_static, is_abstract) {
                    Ok(m) => Ok(Some(MemberView::Method(m))),
                    Err(e) => Err(e),
                }
            } else {
                Ok(before)
            },
            Err(e) => Err(e),
        }
    }
}

/// The member that the node `decl` declares. The member is static where a
/// classifier `$` stands among the children of `decl`, before or after the
/// body, and abstract where a classifier `*` does; an attribute is never
/// abstract.
pub open spec fn member_of(decl: NodeView) -> Result<MemberView, ParseErrorView> {
    match member_core(
        decl.children,
        declared_visibility(decl.children),
        has_classifier(decl.children, "$"@),
        has_classifier(decl.children, "*"@),
    ) {
        Ok(Some(member)) => Ok(member),
        Ok(None) => Err(lacks("member core missing"@)),
        Err(e) => Err(e),
    }
}

/// The target and the member of the member statement `t`: the text of its
/// first child and the member that its second child declares.
pub open spec fn member_stmt_of(t: NodeView) -> Result<StmtView, ParseErrorView> {
    if t.children.len() == 0 {
        Err(lacks("member: target missing"@))
    } else if t.children.len() == 1 {
        Err(lacks("member: decl missing"@))
    } else {
        match member_of(t.children[1]) {
            Ok(member) => Ok(StmtView::Member { target: t.children[0].text, member }),
            Err(e) => Err(e),
        }
    }
}

/// The members that the member statements among `parts` declare, in order.
pub open spec fn class_members(parts: Seq<NodeView>) -> Result<Seq<MemberView>, ParseErrorView>
    decreases parts.len(),
{
    if parts.len() == 0 {
        Ok(Seq::empty())
    } else {
        match class_members(parts.drop_last()) {
            Ok(before) => if parts.last().rule == Rule::MemberStmt {
                match member_stmt_of(parts.last()) {
                    Ok(StmtView::Member { target, member }) => Ok(before.push(member)),
                    Ok(_) => Ok(before),
                    Err(e) => Err(e),
                }
            } else {
                Ok(before)
            },
            Err(e) => Err(e),
        }
    }
}

/// The class that the node `t` declares: named by the last class
/// identifier among its children, in the namespace that the name gives,
/// with the members that its member statements declare, and with no
/// generic suffix and no annotation.
pub open spec fn class_of(t: NodeView) -> Result<ClassView, ParseErrorView> {
    match class_members(t.children) {
        Ok(members) => match last_text(t.children, Rule::ClassIdentifier) {
            Some(name) => Ok(
                ClassView {
                    name,
                    generic: None,
                    annotations: Seq::empty(),
                    members,
                    namespace: split(name).0,
                },
            ),
            None => Err(lacks("class id missing"@)),
        },
        Err(e) => Err(e),
    }
}

/// What an arrow of the given rule says of a relation, and how the relation
/// is drawn. A rule that is none of the arrows stands for a dependency
/// drawn solid.
pub open spec fn arrow_style(rule: Rule) -> (RelationKind, LineStyle) {
    match rule {
        Rule::Aggregation => (RelationKind::Aggregation, LineStyle::Solid),
        Rule::Composition => (RelationKind::Composition, LineStyle::Solid),
        Rule::Inheritance => (RelationKind::Extension, LineStyle::Solid),
        Rule::Dependency => (RelationKind::Dependency, LineStyle::Dotted),
        Rule::Realization => (RelationKind::Dependency, LineStyle::Dotted),
        Rule::Link => (RelationKind::Dependency, LineStyle::Solid),
        Rule::Association => (RelationKind::Dependency, LineStyle::Solid),
        _ => (RelationKind::Dependency, LineStyle::Solid),
    }
}

/// The relation that the node `t` declares: from the class that its first
/// child names to the class that its third child names, of the kind and
/// line that the rule of its second child stands for, without labels.
pub open spec fn relation_of(t: NodeView) -> Result<RelationView, ParseErrorView> {
    if t.children.len() == 0 {
        Err(lacks("relation: from missing"@))
    } else if t.children.len() == 1 {
        Err(lacks("relation: arrow missing"@))
    } else if t.children.len() == 2 {
        Err(lacks("relation: to missing"@))
    } else {
        Ok(
            RelationView {
                from: t.children[0].text,
                to: t.children[2].text,
                kind: arrow_style(t.children[1].rule).0,
                line: arrow_style(t.children[1].rule).1,
                label_from: None,
                label_to: None,
            },
        )
    }
}

/// The text of the last child of `node` that is a node of `rule`.
fn find_last(node: &Node, rule: Rule) -> (text: Option<String>)
    ensures
        text_of(text) == last_text(node@.children, rule),
{
    proof {
        lemma_children_views(node);
    }
    let ghost parts = node@.children;
    let mut i = node.children.len();
    assert(parts.take(i as int) =~= parts);
    while i > 0
        invariant
            i <= node.children.len(),
            parts == node@.children,
            parts == views(node.children@),
            last_text(parts, rule) == last_text(parts.take(i as int), rule),
        decreases i,
    {
        proof {
            assert(parts.take(i as int).drop_last() =~= parts.take(i - 1));
            assert(parts.take(i as int).last() == node.children[i - 1]@);
        }
        i -= 1;
        if node.children[i].rule == rule {
            return Some(node.children[i].text.clone());
        }
    }
    None
}

/// Builds the parameter that the node `p` declares.
pub fn parse_parameter(p: &Node) -> (r: Result<Parameter, ParseError>)
    ensures
        yields(r, parameter_of(p@)),
{
    let data_type = find_last(p, Rule::ClassIdentifier);
    match find_last(p, Rule::VariableIdentifier) {
        Some(name) => Ok(Parameter { name, data_type }),
        None => Err(missing("param name missing")),
    }
}

/// Whether the result `r`, a row of parameters, is the result `expected`.
pub open spec fn yields_parameters(
    r: Result<Vec<Parameter>, ParseError>,
    expected: Result<Seq<ParameterView>, ParseErrorView>,
) -> bool {
    match (r, expected) {
        (Ok(ps), Ok(models)) => ps@.map_values(|p: Parameter| p@) == models,
        (Err(error), Err(model)) => error@ == model,
        _ => false,
    }
}

/// Builds the parameters that the children of the parameter list `list`
/// declare.
pub fn parse_parameters(list: &Node) -> (r: Result<Vec<Parameter>, ParseError>)
    ensures
        yields_parameters(r, parameters_of(list@.children)),
{
    proof {
        lemma_children_views(list);
    }
    let ghost parts = list@.children;
    let mut v: Vec<Parameter> = Vec::new();
    let mut i: usize = 0;
    assert(v@.map_values(|p: Parameter| p@) =~= Seq::<ParameterView>::empty());
    while i < list.children.len()
        invariant
            i <= list.children.len(),
            parts == list@.children,
            parts == views(list.children@),
            parameters_of(parts.take(i as int)) == Ok::<Seq<ParameterView>, ParseErrorView>(
                v@.map_values(|p: Parameter| p@),
            ),
        decreases list.children.len() - i,
    {
        proof {
            assert(parts.take(i + 1).drop_last() =~= parts.take(i as int));
            assert(parts.take(i + 1).last() == list.children[i as int]@);
        }
        let p = &list.children[i];
        if p.rule == Rule::Parameter {
            match parse_parameter(p) {
                Ok(parameter) => {
                    proof {
                        assert(v@.push(parameter).map_values(|p: Parameter| p@) =~= v@.map_values(
                            |p: Parameter| p@,
                        ).push(parameter@));
                    }
                    v.push(parameter);
                },
                Err(e) => {
                    proof {
                        lemma_parameters_fail(parts, i as int);
                    }
                    return Err(e);
                },
            }
        }
        i += 1;
    }
    assert(parts.take(i as int) =~= parts);
    Ok(v)
}

/// A structural error among the first parameters is the error of the whole
/// list.
proof fn lemma_parameters_fail(parts: Seq<NodeView>, i: int)
    requires
        0 <= i < parts.len(),
        parameters_of(parts.take(i + 1)) is Err,
    ensures
        parameters_of(parts) == parameters_of(parts.take(i + 1)),
    decreases parts.len() - i,
{
    if i + 1 < parts.len() {
        assert(parts.take(i + 2).drop_last() =~= parts.take(i + 1));
        lemma_parameters_fail(parts, i + 1);
    } else {
        assert(parts.take(i + 1) =~= parts);
    }
}

/// A structural error among the first parameter lists of a method is the
/// error of them all.
proof fn lemma_method_parameters_fail(parts: Seq<NodeView>, i: int)
    requires
        0 <= i < parts.len(),
        method_parameters(parts.take(i + 1)) is Err,
    ensures
        method_parameters(parts) == method_parameters(parts.take(i + 1)),
    decreases parts.len() - i,
{
    if i + 1 < parts.len() {
        assert(parts.take(i + 2).drop_last() =~= parts.take(i + 1));
        lemma_method_parameters_fail(parts, i + 1);
    } else {
        assert(parts.take(i + 1) =~= parts);
    }
}

/// Builds the attribute that the body `attr` declares under the given
/// markers.
pub fn parse_attribute(attr: &Node, visibility: Visibility, is_static: bool) -> (r: Result<
    Attribute,
    ParseError,
>)
    ensures
        yields(r, attribute_of(attr@, visibility, is_static)),
{
    let data_type = find_last(attr, Rule::ClassIdentifier);
    match find_last(attr, Rule::VariableIdentifier) {
        Some(name) => Ok(Attribute { visibility, name, data_type, is_static }),
        None => Err(missing("attr name missing")),
    }
}

/// Builds the method that the body `meth` declares under the given markers.
pub fn parse_method(meth: &Node, visibility: Visibility, is_static: bool, is_abstract: bool) -> (r:
    Result<Method, ParseError>)
    ensures
        yields(r, method_of(meth@, visibility, is_static, is_abstract)),
{
    proof {
        lemma_children_views(meth);
    }
    let ghost parts = meth@.children;
    let mut parameters: Vec<Parameter> = Vec::new();
    let mut i: usize = 0;
    assert(parameters@.map_values(|p: Parameter| p@) =~= Seq::<ParameterView>::empty());
    while i < meth.children.len()
        invariant
            i <= meth.children.len(),
            parts == meth@.children,
            parts == views(meth.children@),
            method_parameters(parts.take(i as int)) == Ok::<Seq<ParameterView>, ParseErrorView>(
                parameters@.map_values(|p: Parameter| p@),
            ),
        decreases meth.children.len() - i,
    {
        proof {
            assert(parts.take(i + 1).drop_last() =~= parts.take(i as int));
            assert(parts.take(i + 1).last() == meth.children[i as int]@);
        }
        let part = &meth.children[i];
        if part.rule == Rule::MethodParameter {
            match parse_parameters(part) {
                Ok(list) => {
                    parameters = list;
                },
                Err(e) => {
                    proof {
                        lemma_method_parameters_fail(parts, i as int);
                    }
                    return Err(e);
                },
            }
        }
        i += 1;
    }
    assert(parts.take(i as int) =~= parts);
    let return_type = find_last(meth, Rule::ClassIdentifier);
    match find_last(meth, Rule::MethodIdentifier) {
        Some(name) => Ok(
            Method { visibility, name, parameters, return_type, is_static, is_abstract },
        ),
        None => Err(missing("method name missing")),
    }
}

/// The access level that the children of `decl` declare.
fn visibility_among(decl: &Node) -> (v: Visibility)
    ensures
        v == declared_visibility(decl@.children),
{
    match find_last(decl, Rule::Visibility) {
        Some(text) => {
            let marker = text.as_str();
            if marker.unicode_len() > 0 {
                Visibility::from(marker.get_char(0))
            } else {
                Visibility::Unspecified
            }
        },
        None => Visibility::Unspecified,
    }
}

/// Whether a child of `decl` is a classifier with the text `mark`.
fn classifier_among(decl: &Node, mark: &str) -> (found: bool)
    ensures
        found == has_classifier(decl@.children, mark@),
{
    proof {
        lemma_children_views(decl);
    }
    let ghost parts = decl@.children;
    let mut i: usize = 0;
    while i < decl.children.len()
        invariant
            i <= decl.children.len(),
            parts == decl@.children,
            parts == views(decl.children@),
            forall|j: int|
                0 <= j < i ==> !((#[trigger] parts[j]).rule == Rule::Classifier && parts[j].text
                    == mark@),
        decreases decl.children.len() - i,
    {
        let part = &decl.children[i];
        assert(part@ == parts[i as int]);
        if part.rule == Rule::Classifier && same_text(part.text.as_str(), mark) {
            return true;
        }
        i += 1;
    }
    false
}

/// A structural error among the first bodies of a member is the error of
/// them all.
proof fn lemma_member_core_fail(
    parts: Seq<NodeView>,
    i: int,
    visibility: Visibility,
    is_static: bool,
    is_abstract: bool,
)
    requires
        0 <= i < parts.len(),
        member_core(parts.take(i + 1), visibility, is_static, is_abstract) is Err,
    ensures
        member_core(parts, visibility, is_static, is_abstract) == member_core(
            parts.take(i + 1),
            visibility,
            is_static,
            is_abstract,
        ),
    decreases parts.len() - i,
{
    if i + 1 < parts.len() {
        assert(parts.take(i + 2).drop_last() =~= parts.take(i + 1));
        lemma_member_core_fail(parts, i + 1, visibility, is_static, is_abstract);
    } else {
        assert(parts.take(i + 1) =~= parts);
    }
}

/// The model of an optional member.
pub open spec fn member_model(member: Option<Member>) -> Option<MemberView> {
    match member {
        Some(m) => Some(m@),
        None => None,
    }
}

/// Builds the member that the node `decl` declares.
pub fn build_member(decl: &Node) -> (r: Result<Member, ParseError>)
    ensures
        yields(r, member_of(decl@)),
{
    let visibility = visibility_among(decl);
    let is_static = classifier_among(decl, "$");
    let is_abstract = classifier_among(decl, "*");
    proof {
        lemma_children_views(decl);
    }
    let ghost parts = decl@.children;
    let mut core: Option<Member> = None;
    let mut i: usize = 0;
    while i < decl.children.len()
        invariant
            i <= decl.children.len(),
            parts == decl@.children,
            parts == views(decl.children@),
            visibility == declared_visibility(parts),
            is_static == has_classifier(parts, "$"@),
            is_abstract == has_classifier(parts, "*"@),
            member_core(parts.take(i as int), visibility, is_static, is_abstract) == Ok::<
                Option<MemberView>,
                ParseErrorView,
            >(member_model(core)),
        decreases decl.children.len() - i,
    {
        proof {
            assert(parts.take(i + 1).drop_last() =~= parts.take(i as int));
            assert(parts.take(i + 1).last() == decl.children[i as int]@);
        }
        let part = &decl.children[i];
        if part.rule == Rule::ClassPropertyDecl {
            match parse_attribute(part, visibility, is_static) {
                Ok(attribute) => {
                    core = Some(Member::Attribute(attribute));
                },
                Err(e) => {
                    proof {
                        lemma_member_core_fail(
                            parts,
                            i as int,
                            visibility,
                            is_static,
                            is_abstract,
                        );
                    }
                    return Err(e);
                },
            }
        } else if part.rule == Rule::ClassMethodDecl {
            match parse_method(part, visibility, is_static, is_abstract) {
                Ok(method) => {
                    core = Some(Member::Method(method));
                },
                Err(e) => {
                    proof {
                        lemma_member_core_fail(
                            parts,
                            i as int,
                            visibility,
                            is_static,
                            is_abstract,
                        );
                    }
                    return Err(e);
                },
            }
        }
        i += 1;
    }
    assert(parts.take(i as int) =~= parts);
    match core {
        Some(member) => Ok(member),
        None => Err(missing("member core missing")),
    }
}

/// Builds the member statement that the node `pair` declares.
pub fn scan_member_stmt(pair: &Node) -> (r: Result<Stmt, ParseError>)
    ensures
        yields(r, member_stmt_of(pair@)),
{
    proof {
        lemma_children_views(pair);
    }
    if pair.children.len() == 0 {
        return Err(missing("member: target missing"));
    }
    if pair.children.len() == 1 {
        return Err(missing("member: decl missing"));
    }
    assert(pair@.children[0] == pair.children[0]@);
    assert(pair@.children[1] == pair.children[1]@);
    let target = pair.children[0].text.clone();
    match build_member(&pair.children[1]) {
        Ok(member) => Ok(Stmt::Member { target, member }),
        Err(e) => Err(e),
    }
}

/// A structural error among the first member statements of a class is the
/// error of them all.
proof fn lemma_class_members_fail(parts: Seq<NodeView>, i: int)
    requires
        0 <= i < parts.len(),
        class_members(parts.take(i + 1)) is Err,
    ensures
        class_members(parts) == class_members(parts.take(i + 1)),
    decreases parts.len() - i,
{
    if i + 1 < parts.len() {
        assert(parts.take(i + 2).drop_last() =~= parts.take(i + 1));
        lemma_class_members_fail(parts, i + 1);
    } else {
        assert(parts.take(i + 1) =~= parts);
    }
}

/// Builds the class that the node `pair` declares.
pub fn scan_class(pair: &Node) -> (r: Result<Class, ParseError>)
    ensures
        yields(r, class_of(pair@)),
{
    proof {
        lemma_children_views(pair);
    }
    let ghost parts = pair@.children;
    let mut members: Vec<Member> = Vec::new();
    let mut i: usize = 0;
    assert(members@.map_values(|m: Member| m@) =~= Seq::<MemberView>::empty());
    while i < pair.children.len()
        invariant
            i <= pair.children.len(),
            parts == pair@.children,
            parts == views(pair.children@),
            class_members(parts.take(i as int)) == Ok::<Seq<MemberView>, ParseErrorView>(
                members@.map_values(|m: Member| m@),
            ),
        decreases pair.children.len() - i,
    {
        proof {
            assert(parts.take(i + 1).drop_last() =~= parts.take(i as int));
            assert(parts.take(i + 1).last() == pair.children[i as int]@);
        }
        let inner = &pair.children[i];
        if inner.rule == Rule::MemberStmt {
            match scan_member_stmt(inner) {
                Ok(Stmt::Member { target, member }) => {
                    proof {
                        assert(members@.push(member).map_values(|m: Member| m@)
                            =~= members@.map_values(|m: Member| m@).push(member@));
                    }
                    members.push(member);
                },
                Ok(_) => {},
                Err(e) => {
                    proof {
                        lemma_class_members_fail(parts, i as int);
                    }
                    return Err(e);
                },
            }
        }
        i += 1;
    }
    assert(parts.take(i as int) =~= parts);
    match find_last(pair, Rule::ClassIdentifier) {
        Some(name) => {
            let namespace = split_namespace(name.as_str()).0.to_owned();
            let annotations: Vec<String> = Vec::new();
            assert(annotations@.map_values(|a: String| a@) =~= Seq::<Seq<char>>::empty());
            Ok(Class { name, generic: None, annotations, members, namespace })
        },
        None => Err(missing("class id missing")),
    }
}

/// What an arrow of the given rule says of a relation, and how the relation
/// is drawn.
pub fn relation_style(rule: Rule) -> (style: (RelationKind, LineStyle))
    ensures
        style == arrow_style(rule),
{
    match rule {
        Rule::Aggregation => (RelationKind::Aggregation, LineStyle::Solid),
        Rule::Composition => (RelationKind::Composition, LineStyle::Solid),
        Rule::Inheritance => (RelationKind::Extension, LineStyle::Solid),
        Rule::Dependency => (RelationKind::Dependency, LineStyle::Dotted),
        Rule::Realization => (RelationKind::Dependency, LineStyle::Dotted),
        Rule::Link => (RelationKind::Dependency, LineStyle::Solid),
        Rule::Association => (RelationKind::Dependency, LineStyle::Solid),
        _ => (RelationKind::Dependency, LineStyle::Solid),
    }
}

/// Builds the relation that the node `pair` declares.
pub fn scan_relation(pair: &Node) -> (r: Result<Relation, ParseError>)
    ensures
        yields(r, relation_of(pair@)),
{
    proof {
        lemma_children_views(pair);
    }
    if pair.children.len() == 0 {
        return Err(missing("relation: from missing"));
    }
    if pair.children.len() == 1 {
        return Err(missing("relation: arrow missing"));
    }
    if pair.children.len() == 2 {
        return Err(missing("relation: to missing"));
    }
    assert(pair@.children[0] == pair.children[0]@);
    assert(pair@.children[1] == pair.children[1]@);
    assert(pair@.children[2] == pair.children[2]@);
    let from = pair.children[0].text.clone();
    let to = pair.children[2].text.clone();
    let (kind, line) = relation_style(pair.children[1].rule);
    Ok(Relation { from, to, kind, line, label_from: None, label_to: None })
}

/// The statement that a node of a statement rule declares; `None` for a
/// node of any other rule.
pub open spec fn statement_of(t: NodeView) -> Option<Result<StmtView, ParseErrorView>> {
    match t.rule {
        Rule::Class => Some(
            match class_of(t) {
                Ok(c) => Ok(StmtView::Class(c)),
                Err(e) => Err(e),
            },
        ),
        Rule::MemberStmt => Some(member_stmt_of(t)),
        Rule::RelationStmt => Some(
            match relation_of(t) {
                Ok(r) => Ok(StmtView::Relation(r)),
                Err(e) => Err(e),
            },
        ),
        _ => None,
    }
}

/// What collecting statements gives: the statements built, in document
/// order, up to the first structural error, and that error.
pub struct Collected {
    pub statements: Seq<StmtView>,
    pub error: Option<ParseErrorView>,
}

/// The statements of the tree `t`. A node of a statement rule gives its
/// statement and is not looked into; a node of any other rule gives the
/// statements of its children, in order.
pub open spec fn collect(t: NodeView) -> Collected
    decreases t, t.children.len() + 1,
{
    match statement_of(t) {
        Some(Ok(stmt)) => Collected { statements: seq![stmt], error: None },
        Some(Err(e)) => Collected { statements: Seq::empty(), error: Some(e) },
        None => collect_first(t, t.children.len()),
    }
}

/// The statements of the first `n` children of `t`.
pub open spec fn collect_first(t: NodeView, n: nat) -> Collected
    decreases t, n,
{
    if n == 0 || n > t.children.len() {
        Collected { statements: Seq::empty(), error: None }
    } else {
        let before = collect_first(t, (n - 1) as nat);
        if before.error is Some {
            before
        } else {
            let next = collect(t.children[n - 1]);
            Collected { statements: before.statements + next.statements, error: next.error }
        }
    }
}

/// The models of a row of statements.
pub open spec fn stmt_views(stmts: Seq<Stmt>) -> Seq<StmtView> {
    stmts.map_values(|s: Stmt| s@)
}

/// A structural error among the first children is the outcome for all the
/// children.
proof fn lemma_collect_fail(t: NodeView, i: nat)
    requires
        1 <= i <= t.children.len(),
        collect_first(t, i).error is Some,
    ensures
        collect_first(t, t.children.len()) == collect_first(t, i),
    decreases t.children.len() - i,
{
    if i < t.children.len() {
        lemma_collect_fail(t, i + 1);
    }
}

/// Whether `r` reports the outcome `error` of collecting.
pub open spec fn reports(r: Result<(), ParseError>, error: Option<ParseErrorView>) -> bool {
    match (r, error) {
        (Ok(_), None) => true,
        (Err(e), Some(model)) => e@ == model,
        _ => false,
    }
}

/// Appends the statements of the tree `pair` to `out`, in document order,
/// up to the first structural error, which it returns.
pub fn collect_stmt(pair: &Node, out: &mut Vec<Stmt>) -> (r: Result<(), ParseError>)
    ensures
        stmt_views(final(out)@) == stmt_views(old(out)@) + collect(pair@).statements,
        reports(r, collect(pair@).error),
    decreases pair,
{
    proof {
        lemma_children_views(pair);
        assert(stmt_views(out@) + Seq::<StmtView>::empty() =~= stmt_views(out@));
    }
    match pair.rule {
        Rule::Class => {
            let class = scan_class(pair)?;
            proof {
                assert(stmt_views(out@.push(Stmt::Class(class))) =~= stmt_views(out@) + seq![
                    StmtView::Class(class@),
                ]);
            }
            out.push(Stmt::Class(class));
            Ok(())
        },
        Rule::MemberStmt => {
            let stmt = scan_member_stmt(pair)?;
            proof {
                assert(stmt_views(out@.push(stmt)) =~= stmt_views(out@) + seq![stmt@]);
            }
            out.push(stmt);
            Ok(())
        },
        Rule::RelationStmt => {
            let relation = scan_relation(pair)?;
            proof {
                assert(stmt_views(out@.push(Stmt::Relation(relation))) =~= stmt_views(out@)
                    + seq![StmtView::Relation(relation@)]);
            }
            out.push(Stmt::Relation(relation));
            Ok(())
        },
        _ => {
            let ghost t = pair@;
            let mut i: usize = 0;
            while i < pair.children.len()
                invariant
                    i <= pair.children.len(),
                    t == pair@,
                    t.children == views(pair.children@),
                    statement_of(t) is None,
                    stmt_views(out@) == stmt_views(old(out)@) + collect_first(
                        t,
                        i as nat,
                    ).statements,
                    collect_first(t, i as nat).error is None,
                decreases pair.children.len() - i,
            {
                let ghost before = stmt_views(out@);
                let r = collect_stmt(&pair.children[i], out);
                proof {
                    let next = collect(t.children[i as int]);
                    assert(t.children[i as int] == pair.children[i as int]@);
                    assert(before + next.statements =~= stmt_views(old(out)@) + (collect_first(
                        t,
                        i as nat,
                    ).statements + next.statements));
                }
                match r {
                    Ok(_) => {},
                    Err(e) => {
                        proof {
                            lemma_collect_fail(t, (i + 1) as nat);
                        }
                        return Err(e);
                    },
                }
                i += 1;
            }
            Ok(())
        },
    }
}

/// The namespace called `ns` of the diagram `d`, or the empty namespace of
/// that name where `d` has none.
pub open spec fn namespace_or_new(d: DiagramView, ns: Seq<char>) -> NamespaceView {
    if d.namespaces.contains_key(ns) {
        d.namespaces[ns]
    } else {
        empty_namespace(ns)
    }
}

/// The class without members that stands for the target of a member
/// statement until the class is declared.
pub open spec fn placeholder(target: Seq<char>, ns: Seq<char>) -> ClassView {
    ClassView {
        name: target,
        generic: None,
        annotations: Seq::empty(),
        members: Seq::empty(),
        namespace: ns,
    }
}

/// The class under `name` in `space`, or the placeholder for `target`.
pub open spec fn class_or_placeholder(
    space: NamespaceView,
    name: Seq<char>,
    target: Seq<char>,
    ns: Seq<char>,
) -> ClassView {
    if space.classes.contains_key(name) {
        space.classes[name]
    } else {
        placeholder(target, ns)
    }
}

/// The namespace `space` with `class` under `name`, in place of what was
/// there.
pub open spec fn with_class(space: NamespaceView, name: Seq<char>, class: ClassView) -> NamespaceView {
    NamespaceView {
        name: space.name,
        classes: space.classes.insert(name, class),
        children: space.children,
    }
}

/// The class `class` with `member` after its members.
pub open spec fn with_member(class: ClassView, member: MemberView) -> ClassView {
    ClassView {
        name: class.name,
        generic: class.generic,
        annotations: class.annotations,
        members: class.members.push(member),
        namespace: class.namespace,
    }
}

/// The diagram `d` after the statement `stmt`.
///
/// A class statement puts the class under its simple name in its
/// namespace, in place of any class that was there: the members gathered
/// under that name before are gone. A member statement adds the member to
/// the class under the target's simple name, which it first creates without
/// members where there is none. A relation statement adds the relation
/// after the others. A namespace that is not there yet is created empty.
pub open spec fn apply(d: DiagramView, stmt: StmtView) -> DiagramView {
    match stmt {
        StmtView::Class(c) => {
            let (ns, name) = split(c.name);
            DiagramView {
                namespaces: d.namespaces.insert(ns, with_class(namespace_or_new(d, ns), name, c)),
                relations: d.relations,
            }
        },
        StmtView::Member { target, member } => {
            let (ns, name) = split(target);
            let space = namespace_or_new(d, ns);
            let class = class_or_placeholder(space, name, target, ns);
            DiagramView {
                namespaces: d.namespaces.insert(
                    ns,
                    with_class(space, name, with_member(class, member)),
                ),
                relations: d.relations,
            }
        },
        StmtView::Relation(r) => DiagramView {
            namespaces: d.namespaces,
            relations: d.relations.push(r),
        },
    }
}

/// The diagram that the statements `stmts` build, applied in order to the
/// empty diagram.
pub open spec fn assemble(stmts: Seq<StmtView>) -> DiagramView
    decreases stmts.len(),
{
    if stmts.len() == 0 {
        empty_diagram()
    } else {
        apply(assemble(stmts.drop_last()), stmts.last())
    }
}

/// The model of a namespace, field by field.
proof fn lemma_namespace_view(space: Namespace)
    ensures
        space@.name == space.name@,
        space@.classes == space.classes@.map_values(|c: Class| c@),
        space@.children.len() == space.children.len(),
        forall|i: int| 0 <= i < space.children.len() ==> space@.children[i] == space.children[i]@,
{
    reveal_with_fuel(namespace_view, 2);
}

/// Two namespaces that differ in their classes alone have models that
/// differ in their classes alone.
proof fn lemma_namespace_classes(before: Namespace, after: Namespace)
    requires
        before.name == after.name,
        before.children == after.children,
    ensures
        after@.name == before@.name,
        after@.children == before@.children,
        after@.classes == after.classes@.map_values(|c: Class| c@),
{
    lemma_namespace_view(before);
    lemma_namespace_view(after);
    assert(after@.children =~= before@.children);
}

/// Makes sure that `diagram` has a namespace called `ns`.
fn ensure_namespace(diagram: &mut Diagram, ns: &str)
    ensures
        final(diagram).relations == old(diagram).relations,
        final(diagram).namespaces@.contains_key(ns@),
        final(diagram)@.namespaces == old(diagram)@.namespaces.insert(
            ns@,
            namespace_or_new(old(diagram)@, ns@),
        ),
{
    if !diagram.namespaces.contains_key(ns) {
        diagram.namespaces.insert(ns.to_owned(), Namespace::new(ns));
    }
    assert(diagram@.namespaces =~= old(diagram)@.namespaces.insert(
        ns@,
        namespace_or_new(old(diagram)@, ns@),
    ));
}

/// Applies the statement `stmt` to `diagram`.
pub fn apply_stmt(stmt: Stmt, diagram: &mut Diagram)
    ensures
        final(diagram)@ == apply(old(diagram)@, stmt@),
{
    match stmt {
        Stmt::Class(c) => {
            let (ns_part, name_part) = split_namespace(c.name.as_str());
            let ns = ns_part.to_owned();
            let name = name_part.to_owned();
            ensure_namespace(diagram, ns.as_str());
            let ghost mid = *diagram;
            match diagram.namespaces.get_mut(ns.as_str()) {
                Some(space) => {
                    let ghost before = *space;
                    space.classes.insert(name, c);
                    proof {
                        lemma_namespace_classes(before, *space);
                        assert(space@.classes =~= before@.classes.insert(name@, c@)) by {
                            lemma_namespace_view(before);
                        }
                        assert(space@ == with_class(before@, name@, c@));
                    }
                },
                None => {},
            }
            proof {
                assert(diagram@.namespaces =~= mid@.namespaces.insert(
                    ns@,
                    with_class(mid@.namespaces[ns@], name@, c@),
                ));
                assert(diagram@.namespaces =~= apply(old(diagram)@, stmt@).namespaces);
            }
        },
        Stmt::Member { target, member } => {
            let (ns_part, name_part) = split_namespace(target.as_str());
            let ns = ns_part.to_owned();
            let name = name_part.to_owned();
            ensure_namespace(diagram, ns.as_str());
            let ghost mid = *diagram;
            let ghost target_model = target@;
            let ghost member_model = member@;
            match diagram.namespaces.get_mut(ns.as_str()) {
                Some(space) => {
                    let ghost before = *space;
                    if !space.classes.contains_key(name.as_str()) {
                        let annotations: Vec<String> = Vec::new();
                        let members: Vec<Member> = Vec::new();
                        let fresh = Class {
                            name: target,
                            generic: None,
                            annotations,
                            members,
                            namespace: ns.clone(),
                        };
                        proof {
                            assert(fresh@.annotations =~= Seq::<Seq<char>>::empty());
                            assert(fresh@.members =~= Seq::<MemberView>::empty());
                        }
                        space.classes.insert(name.clone(), fresh);
                    }
                    let ghost ready = *space;
                    match space.classes.get_mut(name.as_str()) {
                        Some(class) => {
                            let ghost class_before = *class;
                            class.members.push(member);
                            proof {
                                assert(class@.members =~= class_before@.members.push(
                                    member_model,
                                ));
                                assert(class@ == with_member(class_before@, member_model));
                            }
                        },
                        None => {},
                    }
                    proof {
                        lemma_namespace_classes(before, *space);
                        lemma_namespace_view(before);
                        let class = class_or_placeholder(before@, name@, target_model, ns@);
                        assert(ready.classes@[name@]@ == class);
                        assert(space@.classes =~= before@.classes.insert(
                            name@,
                            with_member(class, member_model),
                        ));
                        assert(space@ == with_class(
                            before@,
                            name@,
                            with_member(class, member_model),
                        ));
                    }
                },
                None => {},
            }
            proof {
                let space = mid@.namespaces[ns@];
                let class = class_or_placeholder(space, name@, target_model, ns@);
                assert(diagram@.namespaces =~= mid@.namespaces.insert(
                    ns@,
                    with_class(space, name@, with_member(class, member_model)),
                ));
                assert(diagram@.namespaces =~= apply(old(diagram)@, stmt@).namespaces);
            }
        },
        Stmt::Relation(r) => {
            proof {
                assert(diagram.relations@.push(r).map_values(|r: Relation| r@)
                    =~= diagram.relations@.map_values(|r: Relation| r@).push(r@));
            }
            diagram.relations.push(r);
        },
    }
}

/// What parsing the document `s` gives: the syntax error where `s` does
/// not match the grammar, the first structural error where a statement
/// lacks a part, and otherwise the diagram that the statements of `s`
/// build.
pub open spec fn parse_outcome(s: Seq<char>) -> Result<DiagramView, ParseErrorView> {
    match parse_tree(Rule::Diagram, s) {
        Ok(tree) => {
            let collected = collect_first(tree, tree.children.len());
            match collected.error {
                None => Ok(assemble(collected.statements)),
                Some(e) => Err(e),
            }
        },
        Err(e) => Err(ParseErrorView::Syntax(e)),
    }
}

/// Parses a class-diagram document.
///
/// Gives the diagram of the document, or the one error that says why there
/// is none. The same document always gives the same outcome.
///
/// The diagram is consistent: every namespace goes by the name it is kept
/// under, and every class is kept where its name says. The error of a
/// document is always a syntax error: whatever the grammar accepts has the
/// parts that the builders need.
pub fn parse(src: &str) -> (r: Result<Diagram, ParseError>)
    ensures
        yields(r, parse_outcome(src@)),
        r matches Ok(diagram) ==> is_consistent(diagram@),
        r matches Err(error) ==> error is Syntax,
{
    proof {
        parsed_diagram_is_consistent(src@);
        documents_have_no_structural_errors(src@);
    }
    let tree = match MermaidParser::parse(Rule::Diagram, src) {
        Ok(tree) => tree,
        Err(e) => {
            return Err(ParseError::Syntax(e));
        },
    };
    proof {
        lemma_children_views(&tree);
    }
    let mut stmts: Vec<Stmt> = Vec::new();
    assert(stmt_views(stmts@) =~= Seq::<StmtView>::empty());
    let mut i: usize = 0;
    while i < tree.children.len()
        invariant
            i <= tree.children.len(),
            tree@.children == views(tree.children@),
            parse_tree(Rule::Diagram, src@) == Ok::<NodeView, SyntaxErrorView>(tree@),
            stmt_views(stmts@) == collect_first(tree@, i as nat).statements,
            collect_first(tree@, i as nat).error is None,
        decreases tree.children.len() - i,
    {
        let ghost before = stmt_views(stmts@);
        let r = collect_stmt(&tree.children[i], &mut stmts);
        proof {
            assert(tree@.children[i as int] == tree.children[i as int]@);
        }
        match r {
            Ok(_) => {},
            Err(e) => {
                proof {
                    lemma_collect_fail(tree@, (i + 1) as nat);
                    documents_have_no_structural_errors(src@);
                }
                return Err(e);
            },
        }
        i += 1;
    }
    let ghost all = stmts@;
    let ghost models = stmt_views(all);
    let count = stmts.len();
    let mut diagram = Diagram::new();
    let mut k: usize = 0;
    assert(models.take(0) =~= Seq::<StmtView>::empty());
    for stmt in it: stmts
        invariant
            k == it.index(),
            it.seq() == all,
            all.len() == count,
            models == stmt_views(all),
            diagram@ == assemble(models.take(k as int)),
    {
        proof {
            assert(models.take(k + 1).drop_last() =~= models.take(k as int));
            assert(models.take(k + 1).last() == stmt@);
        }
        apply_stmt(stmt, &mut diagram);
        k = k + 1;
    }
    assert(models.take(k as int) =~= models);
    Ok(diagram)
}

} // verus!
