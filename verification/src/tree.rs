//! The match tree: what matching a document against the grammar produces.
//!
//! A node records which rule matched, the span of the document it matched
//! (as character positions), the matched text, and the nodes of the rules
//! matched inside it, in document order.

use vstd::prelude::*;

verus! {

/// The symbols of the grammar.
#[derive(Debug, Clone, Copy, PartialEq, Eq, PartialOrd, Ord, Hash, Structural)]
pub enum Rule {
    /// A whole document: the header and the statements that follow it.
    Diagram,
    /// The header word that opens every document.
    Header,
    /// A class declaration, with whatever suffixes it carries.
    Class,
    /// A class declaration of the keyword and the identifier alone.
    ClassExplicit,
    /// A class declaration that carries a label.
    ClassLabels,
    /// The identifier of a class; also the name of a type.
    ClassIdentifier,
    /// The generic suffix of a class, tildes included.
    Generic,
    /// The label of a class: a quoted string in square brackets.
    Label,
    /// A stereotype annotation in double angle brackets.
    Annotation,
    /// A member statement: a class identifier, a colon and a member.
    MemberStmt,
    /// A member statement whose member is an attribute.
    ClassProperty,
    /// A member statement whose member is a method.
    ClassMethod,
    /// The member of a member statement: markers and a body.
    MemberDecl,
    /// A visibility marker.
    Visibility,
    /// A classifier marker.
    Classifier,
    /// The body of an attribute: an optional type and a name.
    ClassPropertyDecl,
    /// The body of a method: an optional type, a name, a parameter list in
    /// parentheses and an optional return type.
    ClassMethodDecl,
    /// The name of an attribute or of a parameter.
    VariableIdentifier,
    /// The name of a method.
    MethodIdentifier,
    /// The parameters of a method, between its parentheses.
    MethodParameter,
    /// One parameter: an optional type and a name.
    Parameter,
    /// A relation statement: an identifier, an arrow and an identifier.
    RelationStmt,
    /// The arrow `o--`.
    Aggregation,
    /// The arrow `*--`.
    Composition,
    /// The arrow `<|--`.
    Inheritance,
    /// The arrow `<..`.
    Dependency,
    /// The arrow `<|..`.
    Realization,
    /// The arrow `--`.
    Link,
    /// The arrow `<--`.
    Association,
    /// A comment: `%%` and the rest of the line.
    Comment,
    /// A note: the keyword and a quoted string.
    Note,
    /// The end of a line.
    EndOfLine,
    /// The end of the document.
    EndOfInput,
}

/// A node of the match tree.
#[derive(Debug)]
pub struct Node {
    /// The rule that matched.
    pub rule: Rule,
    /// The position of the first matched character.
    pub start: usize,
    /// The position after the last matched character.
    pub end: usize,
    /// The matched text.
    pub text: String,
    /// The nodes matched inside this one, in document order.
    pub children: Vec<Node>,
}

/// The mathematical model of a [`Node`].
pub struct NodeView {
    pub rule: Rule,
    pub start: int,
    pub end: int,
    pub text: Seq<char>,
    pub children: Seq<NodeView>,
}

/// The model of a node: its own fields, and the models of its children.
pub open spec fn node_view(node: Node) -> NodeView
    decreases node,
{
    NodeView {
        rule: node.rule,
        start: node.start as int,
        end: node.end as int,
        text: node.text@,
        children: Seq::new(
            node.children.len() as nat,
            |i: int|
                if 0 <= i < node.children.len() {
                    node_view(node.children[i])
                } else {
                    arbitrary()
                },
        ),
    }
}

impl View for Node {
    type V = NodeView;

    open spec fn view(&self) -> NodeView {
        node_view(*self)
    }
}

/// The models of a sequence of nodes.
pub open spec fn views(nodes: Seq<Node>) -> Seq<NodeView> {
    Seq::new(nodes.len(), |i: int| nodes[i]@)
}

/// The children of a node's model are the models of its children.
pub proof fn lemma_children_views(node: &Node)
    ensures
        node@.children == views(node.children@),
{
    assert(node@.children =~= views(node.children@)) by {
        reveal_with_fuel(node_view, 2);
    }
}

/// The node of `rule` that spans positions `start` to `end` of `s` and holds
/// `children`.
pub open spec fn branch(
    rule: Rule,
    s: Seq<char>,
    start: int,
    end: int,
    children: Seq<NodeView>,
) -> NodeView {
    NodeView { rule, start, end, text: s.subrange(start, end), children }
}

/// The childless node of `rule` that spans positions `start` to `end` of `s`.
pub open spec fn leaf(rule: Rule, s: Seq<char>, start: int, end: int) -> NodeView {
    branch(rule, s, start, end, Seq::empty())
}

/// A sequence of none or one node.
pub open spec fn optional(node: Option<NodeView>) -> Seq<NodeView> {
    match node {
        Some(n) => seq![n],
        None => Seq::empty(),
    }
}

/// The position reached after matching `nodes` in a row from position `i`.
pub open spec fn end_after(nodes: Seq<NodeView>, i: int) -> int {
    if nodes.len() == 0 {
        i
    } else {
        nodes.last().end
    }
}

/// The text of the last node of `rule` among `nodes`, if there is one.
pub open spec fn last_text(nodes: Seq<NodeView>, rule: Rule) -> Option<Seq<char>>
    decreases nodes.len(),
{
    if nodes.len() == 0 {
        None
    } else if nodes.last().rule == rule {
        Some(nodes.last().text)
    } else {
        last_text(nodes.drop_last(), rule)
    }
}

} // verus!
