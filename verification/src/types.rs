//! The model of a class diagram: namespaces, classes, their members, and the
//! relations between classes.
//!
//! Every type comes with a mathematical model, its view, in which texts are
//! `Seq<char>`, sequences are `Seq` and maps are `Map`. The view of a
//! diagram does not depend on the order in which its maps hold their
//! entries.

use vstd::prelude::*;
use vstd::std_specs::convert::FromSpecImpl;
use crate::name_map::NameMap;

verus! {

/// The name of the namespace of classes that name none.
pub const DEFAULT_NAMESPACE: &'static str = "";

/// The name of the default namespace is the empty text.
pub proof fn default_namespace_is_empty()
    ensures
        DEFAULT_NAMESPACE@ == Seq::<char>::empty(),
{
    reveal_strlit("");
    assert(DEFAULT_NAMESPACE@ =~= Seq::<char>::empty());
}

/// The access level of a member.
#[derive(Debug, Clone, Copy, PartialEq, Eq, Structural)]
pub enum Visibility {
    /// Marked `+`.
    Public,
    /// Marked `-`.
    Private,
    /// Marked `#`.
    Protected,
    /// Marked `~`.
    Package,
    /// Not marked.
    Unspecified,
}

/// The access level that the marker `c` stands for. Every character that is
/// not a marker stands for no access level.
pub open spec fn visibility_of(c: char) -> Visibility {
    if c == '+' {
        Visibility::Public
    } else if c == '-' {
        Visibility::Private
    } else if c == '#' {
        Visibility::Protected
    } else if c == '~' {
        Visibility::Package
    } else {
        Visibility::Unspecified
    }
}

impl From<char> for Visibility {
    fn from(c: char) -> (v: Self)
        ensures
            v == visibility_of(c),
    {
        match c {
            '+' => Visibility::Public,
            '-' => Visibility::Private,
            '#' => Visibility::Protected,
            '~' => Visibility::Package,
            _ => Visibility::Unspecified,
        }
    }
}

impl FromSpecImpl<char> for Visibility {
    open spec fn obeys_from_spec() -> bool {
        true
    }

    open spec fn from_spec(c: char) -> Self {
        visibility_of(c)
    }
}

/// Whether a relation is drawn as a solid or as a dotted line.
#[derive(Debug, Clone, Copy, PartialEq, Eq, Structural)]
pub enum LineStyle {
    Solid,
    Dotted,
}

/// What a relation says of its two classes.
#[derive(Debug, Clone, Copy, PartialEq, Eq, Structural)]
pub enum RelationKind {
    Aggregation,
    Composition,
    Extension,
    Dependency,
    Lollipop,
}

/// The characters of an optional text.
pub open spec fn text_of(text: Option<String>) -> Option<Seq<char>> {
    match text {
        Some(t) => Some(t@),
        None => None,
    }
}

/// A parameter of a method.
#[derive(Debug, Clone, PartialEq, Eq)]
pub struct Parameter {
    pub name: String,
    /// The declared type, where the diagram gives one.
    pub data_type: Option<String>,
}

/// The model of a [`Parameter`].
pub struct ParameterView {
    pub name: Seq<char>,
    pub data_type: Option<Seq<char>>,
}

impl View for Parameter {
    type V = ParameterView;

    open spec fn view(&self) -> ParameterView {
        ParameterView { name: self.name@, data_type: text_of(self.data_type) }
    }
}

/// An attribute of a class.
#[derive(Debug, Clone, PartialEq, Eq)]
pub struct Attribute {
    pub visibility: Visibility,
    pub name: String,
    /// The declared type, where the diagram gives one.
    pub data_type: Option<String>,
    pub is_static: bool,
}

/// The model of an [`Attribute`].
pub struct AttributeView {
    pub visibility: Visibility,
    pub name: Seq<char>,
    pub data_type: Option<Seq<char>>,
    pub is_static: bool,
}

impl View for Attribute {
    type V = AttributeView;

    open spec fn view(&self) -> AttributeView {
        AttributeView {
            visibility: self.visibility,
            name: self.name@,
            data_type: text_of(self.data_type),
            is_static: self.is_static,
        }
    }
}

/// A method of a class.
#[derive(Debug, Clone, PartialEq, Eq)]
pub struct Method {
    pub visibility: Visibility,
    pub name: String,
    /// The parameters, in the order of their declaration.
    pub parameters: Vec<Parameter>,
    /// The return type, where the diagram gives one.
    pub return_type: Option<String>,
    pub is_static: bool,
    pub is_abstract: bool,
}

/// The model of a [`Method`].
pub struct MethodView {
    pub visibility: Visibility,
    pub name: Seq<char>,
    pub parameters: Seq<ParameterView>,
    pub return_type: Option<Seq<char>>,
    pub is_static: bool,
    pub is_abstract: bool,
}

impl View for Method {
    type V = MethodView;

    open spec fn view(&self) -> MethodView {
        MethodView {
            visibility: self.visibility,
            name: self.name@,
            parameters: self.parameters@.map_values(|p: Parameter| p@),
            return_type: text_of(self.return_type),
            is_static: self.is_static,
            is_abstract: self.is_abstract,
        }
    }
}

/// A member of a class.
#[derive(Debug, Clone, PartialEq, Eq)]
pub enum Member {
    Attribute(Attribute),
    Method(Method),
}

/// The model of a [`Member`].
pub enum MemberView {
    Attribute(AttributeView),
    Method(MethodView),
}

impl View for Member {
    type V = MemberView;

    open spec fn view(&self) -> MemberView {
        match self {
            Member::Attribute(a) => MemberView::Attribute(a@),
            Member::Method(m) => MemberView::Method(m@),
        }
    }
}

/// A class of the diagram.
#[derive(Debug, Clone)]
pub struct Class {
    /// The name as declared, namespace included.
    pub name: String,
    /// The generic suffix, where one is recorded.
    pub generic: Option<String>,
    /// Stereotype annotations.
    pub annotations: Vec<String>,
    /// The members, in the order of their declaration.
    pub members: Vec<Member>,
    /// The name of the namespace that holds the class.
    pub namespace: String,
}

/// The model of a [`Class`].
pub struct ClassView {
    pub name: Seq<char>,
    pub generic: Option<Seq<char>>,
    pub annotations: Seq<Seq<char>>,
    pub members: Seq<MemberView>,
    pub namespace: Seq<char>,
}

impl View for Class {
    type V = ClassView;

    open spec fn view(&self) -> ClassView {
        ClassView {
            name: self.name@,
            generic: text_of(self.generic),
            annotations: self.annotations@.map_values(|a: String| a@),
            members: self.members@.map_values(|m: Member| m@),
            namespace: self.namespace@,
        }
    }
}

/// A relation between two classes.
#[derive(Debug, Clone)]
pub struct Relation {
    /// The class named first.
    pub from: String,
    /// The class named second.
    pub to: String,
    pub kind: RelationKind,
    pub line: LineStyle,
    pub label_from: Option<String>,
    pub label_to: Option<String>,
}

/// The model of a [`Relation`].
pub struct RelationView {
    pub from: Seq<char>,
    pub to: Seq<char>,
    pub kind: RelationKind,
    pub line: LineStyle,
    pub label_from: Option<Seq<char>>,
    pub label_to: Option<Seq<char>>,
}

impl View for Relation {
    type V = RelationView;

    open spec fn view(&self) -> RelationView {
        RelationView {
            from: self.from@,
            to: self.to@,
            kind: self.kind,
            line: self.line,
            label_from: text_of(self.label_from),
            label_to: text_of(self.label_to),
        }
    }
}

/// A namespace: a named group of classes.
#[derive(Debug)]
pub struct Namespace {
    /// The name; empty for the default namespace.
    pub name: String,
    /// The classes, by their names without the namespace.
    pub classes: NameMap<Class>,
    /// Namespaces nested in this one.
    pub children: Vec<Namespace>,
}

/// The model of a [`Namespace`].
pub struct NamespaceView {
    pub name: Seq<char>,
    pub classes: Map<Seq<char>, ClassView>,
    pub children: Seq<NamespaceView>,
}

/// The model of a namespace: its name, the models of its classes, and the
/// models of its children.
pub open spec fn namespace_view(namespace: Namespace) -> NamespaceView
    decreases namespace,
{
    NamespaceView {
        name: namespace.name@,
        classes: namespace.classes@.map_values(|c: Class| c@),
        children: Seq::new(
            namespace.children.len() as nat,
            |i: int|
                if 0 <= i < namespace.children.len() {
                    namespace_view(namespace.children[i])
                } else {
                    arbitrary()
                },
        ),
    }
}

impl View for Namespace {
    type V = NamespaceView;

    open spec fn view(&self) -> NamespaceView {
        namespace_view(*self)
    }
}

/// The namespace of the given name that holds nothing.
pub open spec fn empty_namespace(name: Seq<char>) -> NamespaceView {
    NamespaceView { name, classes: Map::empty(), children: Seq::empty() }
}

impl Namespace {
    /// The namespace called `name` that holds nothing.
    pub fn new(name: &str) -> (namespace: Self)
        ensures
            namespace@ == empty_namespace(name@),
    {
        let namespace = Namespace {
            name: name.to_owned(),
            classes: NameMap::new(),
            children: Vec::new(),
        };
        proof {
            assert(namespace@.classes =~= Map::<Seq<char>, ClassView>::empty());
            assert(namespace@.children =~= Seq::<NamespaceView>::empty());
        }
        namespace
    }
}

impl Default for Namespace {
    fn default() -> (namespace: Self)
        ensures
            namespace@ == empty_namespace(Seq::empty()),
    {
        let namespace = Namespace {
            name: String::new(),
            classes: NameMap::new(),
            children: Vec::new(),
        };
        proof {
            assert(namespace@.classes =~= Map::<Seq<char>, ClassView>::empty());
            assert(namespace@.children =~= Seq::<NamespaceView>::empty());
        }
        namespace
    }
}

/// A class diagram.
#[derive(Debug)]
pub struct Diagram {
    /// The namespaces, by name.
    pub namespaces: NameMap<Namespace>,
    /// The relations, in the order of their declaration.
    pub relations: Vec<Relation>,
}

/// The model of a [`Diagram`].
pub struct DiagramView {
    pub namespaces: Map<Seq<char>, NamespaceView>,
    pub relations: Seq<RelationView>,
}

impl View for Diagram {
    type V = DiagramView;

    open spec fn view(&self) -> DiagramView {
        DiagramView {
            namespaces: self.namespaces@.map_values(|n: Namespace| n@),
            relations: self.relations@.map_values(|r: Relation| r@),
        }
    }
}

/// The diagram that holds nothing.
pub open spec fn empty_diagram() -> DiagramView {
    DiagramView { namespaces: Map::empty(), relations: Seq::empty() }
}

impl Diagram {
    /// The diagram that holds nothing.
    pub fn new() -> (diagram: Self)
        ensures
            diagram@ == empty_diagram(),
    {
        let diagram = Diagram { namespaces: NameMap::new(), relations: Vec::new() };
        proof {
            assert(diagram@.namespaces =~= Map::<Seq<char>, NamespaceView>::empty());
            assert(diagram@.relations =~= Seq::<RelationView>::empty());
        }
        diagram
    }
}

impl Default for Diagram {
    fn default() -> (diagram: Self)
        ensures
            diagram@ == empty_diagram(),
    {
        Diagram::new()
    }
}

} // verus!
