//! The builders and the assembler, on match trees written by hand.

use mermaid_parser::parser::{
    apply_stmt, build_member, collect_stmt, parse_attribute, parse_method, parse_parameter,
    parse_parameters, relation_style, scan_class, scan_member_stmt, scan_relation,
    split_namespace, ParseError, Stmt,
};
use mermaid_parser::tree::{Node, Rule};
use mermaid_parser::types::{
    Attribute, Class, Diagram, LineStyle, Member, Relation, RelationKind, Visibility,
};

fn leaf(rule: Rule, text: &str) -> Node {
    Node { rule, start: 0, end: text.chars().count(), text: text.to_string(), children: vec![] }
}

fn branch(rule: Rule, children: Vec<Node>) -> Node {
    Node { rule, start: 0, end: 0, text: String::new(), children }
}

fn reason<T: std::fmt::Debug>(outcome: Result<T, ParseError>) -> String {
    match outcome {
        Err(ParseError::Custom(reason)) => reason,
        other => panic!("{:?}", other),
    }
}

fn attribute(name: &str) -> Member {
    Member::Attribute(Attribute {
        visibility: Visibility::Public,
        name: name.to_string(),
        data_type: None,
        is_static: false,
    })
}

fn class(name: &str, namespace: &str, members: Vec<Member>) -> Class {
    Class {
        name: name.to_string(),
        generic: None,
        annotations: vec![],
        members,
        namespace: namespace.to_string(),
    }
}

#[test]
fn split_namespace_splits_at_the_last_delimiter() {
    assert_eq!(split_namespace("Foo"), ("", "Foo"));
    assert_eq!(split_namespace(""), ("", ""));
    assert_eq!(split_namespace("a::Foo"), ("a", "Foo"));
    assert_eq!(split_namespace("a::b::Foo"), ("a::b", "Foo"));
    assert_eq!(split_namespace("::Foo"), ("", "Foo"));
    assert_eq!(split_namespace("a::"), ("a", ""));
    assert_eq!(split_namespace(":::"), (":", ""));
    assert_eq!(split_namespace("a:b"), ("", "a:b"));
    assert_eq!(split_namespace("\u{e9}t\u{e9}::\u{1F680}"), ("\u{e9}t\u{e9}", "\u{1F680}"));
}

#[test]
fn parameter_takes_the_last_name_and_the_last_type() {
    let p = branch(
        Rule::Parameter,
        vec![
            leaf(Rule::ClassIdentifier, "int"),
            leaf(Rule::VariableIdentifier, "first"),
            leaf(Rule::ClassIdentifier, "long"),
            leaf(Rule::VariableIdentifier, "second"),
            leaf(Rule::Comment, "ignored"),
        ],
    );
    let parameter = parse_parameter(&p).unwrap();
    assert_eq!(parameter.name, "second");
    assert_eq!(parameter.data_type.as_deref(), Some("long"));

    let bare = branch(Rule::Parameter, vec![leaf(Rule::VariableIdentifier, "x")]);
    let parameter = parse_parameter(&bare).unwrap();
    assert_eq!(parameter.name, "x");
    assert_eq!(parameter.data_type, None);
}

#[test]
fn parameter_without_a_name_is_a_structural_error() {
    let p = branch(Rule::Parameter, vec![leaf(Rule::ClassIdentifier, "int")]);
    assert_eq!(reason(parse_parameter(&p)), "param name missing");
    assert_eq!(reason(parse_parameter(&branch(Rule::Parameter, vec![]))), "param name missing");
}

#[test]
fn parameters_skip_what_is_no_parameter() {
    let list = branch(
        Rule::MethodParameter,
        vec![
            branch(Rule::Parameter, vec![leaf(Rule::VariableIdentifier, "a")]),
            leaf(Rule::Comment, ","),
            branch(Rule::Parameter, vec![leaf(Rule::VariableIdentifier, "b")]),
        ],
    );
    let parameters = parse_parameters(&list).unwrap();
    let names: Vec<&str> = parameters.iter().map(|p| p.name.as_str()).collect();
    assert_eq!(names, vec!["a", "b"]);
    assert!(parse_parameters(&branch(Rule::MethodParameter, vec![])).unwrap().is_empty());

    let broken = branch(
        Rule::MethodParameter,
        vec![
            branch(Rule::Parameter, vec![leaf(Rule::VariableIdentifier, "a")]),
            branch(Rule::Parameter, vec![]),
            branch(Rule::Parameter, vec![leaf(Rule::VariableIdentifier, "b")]),
        ],
    );
    assert_eq!(reason(parse_parameters(&broken)), "param name missing");
}

#[test]
fn attribute_is_built_under_the_given_markers() {
    let body = branch(
        Rule::ClassPropertyDecl,
        vec![leaf(Rule::ClassIdentifier, "String"), leaf(Rule::VariableIdentifier, "owner")],
    );
    let a = parse_attribute(&body, Visibility::Package, true).unwrap();
    assert_eq!(a.visibility, Visibility::Package);
    assert_eq!(a.name, "owner");
    assert_eq!(a.data_type.as_deref(), Some("String"));
    assert!(a.is_static);
    let empty = branch(Rule::ClassPropertyDecl, vec![leaf(Rule::ClassIdentifier, "String")]);
    assert_eq!(reason(parse_attribute(&empty, Visibility::Public, false)), "attr name missing");
}

#[test]
fn method_is_built_under_the_given_markers() {
    let body = branch(
        Rule::ClassMethodDecl,
        vec![
            leaf(Rule::ClassIdentifier, "String"),
            leaf(Rule::MethodIdentifier, "owner"),
            branch(
                Rule::MethodParameter,
                vec![branch(Rule::Parameter, vec![leaf(Rule::VariableIdentifier, "dropped")])],
            ),
            branch(
                Rule::MethodParameter,
                vec![branch(
                    Rule::Parameter,
                    vec![
                        leaf(Rule::ClassIdentifier, "testo"),
                        leaf(Rule::VariableIdentifier, "testo"),
                    ],
                )],
            ),
        ],
    );
    let m = parse_method(&body, Visibility::Private, false, true).unwrap();
    assert_eq!(m.visibility, Visibility::Private);
    assert_eq!(m.name, "owner");
    assert_eq!(m.return_type.as_deref(), Some("String"));
    assert_eq!(m.parameters.len(), 1);
    assert_eq!(m.parameters[0].name, "testo");
    assert!(!m.is_static);
    assert!(m.is_abstract);
}

#[test]
fn method_errors_come_in_the_order_of_the_parts() {
    let nameless = branch(Rule::ClassMethodDecl, vec![leaf(Rule::ClassIdentifier, "String")]);
    assert_eq!(
        reason(parse_method(&nameless, Visibility::Public, false, false)),
        "method name missing"
    );
    let both = branch(
        Rule::ClassMethodDecl,
        vec![branch(Rule::MethodParameter, vec![branch(Rule::Parameter, vec![])])],
    );
    assert_eq!(
        reason(parse_method(&both, Visibility::Public, false, false)),
        "param name missing"
    );
}

#[test]
fn member_reads_markers_before_and_after_the_body() {
    let decl = branch(
        Rule::MemberDecl,
        vec![
            leaf(Rule::Visibility, "#"),
            leaf(Rule::Classifier, "*"),
            branch(Rule::ClassMethodDecl, vec![leaf(Rule::MethodIdentifier, "run")]),
            leaf(Rule::Classifier, "$"),
        ],
    );
    match build_member(&decl).unwrap() {
        Member::Method(m) => {
            assert_eq!(m.visibility, Visibility::Protected);
            assert!(m.is_static);
            assert!(m.is_abstract);
        }
        Member::Attribute(_) => panic!("a method was declared"),
    }
    let plain = branch(
        Rule::MemberDecl,
        vec![
            leaf(Rule::Classifier, "?"),
            leaf(Rule::Visibility, ""),
            branch(Rule::ClassPropertyDecl, vec![leaf(Rule::VariableIdentifier, "x")]),
        ],
    );
    match build_member(&plain).unwrap() {
        Member::Attribute(a) => {
            assert_eq!(a.visibility, Visibility::Unspecified);
            assert!(!a.is_static);
        }
        Member::Method(_) => panic!("an attribute was declared"),
    }
}

#[test]
fn member_takes_its_last_body() {
    let decl = branch(
        Rule::MemberDecl,
        vec![
            branch(Rule::ClassPropertyDecl, vec![leaf(Rule::VariableIdentifier, "x")]),
            branch(Rule::ClassMethodDecl, vec![leaf(Rule::MethodIdentifier, "run")]),
        ],
    );
    assert!(matches!(build_member(&decl).unwrap(), Member::Method(_)));
    let broken = branch(
        Rule::MemberDecl,
        vec![
            branch(Rule::ClassPropertyDecl, vec![]),
            branch(Rule::ClassMethodDecl, vec![leaf(Rule::MethodIdentifier, "run")]),
        ],
    );
    assert_eq!(reason(build_member(&broken)), "attr name missing");
}

#[test]
fn member_without_a_body_is_a_structural_error() {
    let decl = branch(Rule::MemberDecl, vec![leaf(Rule::Visibility, "+")]);
    assert_eq!(reason(build_member(&decl)), "member core missing");
}

#[test]
fn member_statement_needs_a_target_and_a_member() {
    assert_eq!(
        reason(scan_member_stmt(&branch(Rule::MemberStmt, vec![]))),
        "member: target missing"
    );
    assert_eq!(
        reason(scan_member_stmt(&branch(
            Rule::MemberStmt,
            vec![leaf(Rule::ClassIdentifier, "Foo")]
        ))),
        "member: decl missing"
    );
    let stmt = branch(
        Rule::MemberStmt,
        vec![
            leaf(Rule::ClassIdentifier, "Foo"),
            branch(
                Rule::MemberDecl,
                vec![branch(Rule::ClassPropertyDecl, vec![leaf(Rule::VariableIdentifier, "x")])],
            ),
        ],
    );
    match scan_member_stmt(&stmt).unwrap() {
        Stmt::Member { target, member } => {
            assert_eq!(target, "Foo");
            assert!(matches!(member, Member::Attribute(_)));
        }
        other => panic!("{:?}", other),
    }
}

#[test]
fn class_is_named_by_its_last_identifier() {
    let node = branch(
        Rule::Class,
        vec![
            leaf(Rule::ClassIdentifier, "First"),
            leaf(Rule::Generic, "~T~"),
            leaf(Rule::ClassIdentifier, "pkg::sub::Second"),
            leaf(Rule::Annotation, "<<interface>>"),
        ],
    );
    let class = scan_class(&node).unwrap();
    assert_eq!(class.name, "pkg::sub::Second");
    assert_eq!(class.namespace, "pkg::sub");
    assert_eq!(class.generic, None);
    assert!(class.annotations.is_empty());
    assert!(class.members.is_empty());
}

#[test]
fn class_gathers_the_members_of_its_member_statements() {
    let member = |name: &str| {
        branch(
            Rule::MemberStmt,
            vec![
                leaf(Rule::ClassIdentifier, "ignored"),
                branch(
                    Rule::MemberDecl,
                    vec![branch(
                        Rule::ClassPropertyDecl,
                        vec![leaf(Rule::VariableIdentifier, name)],
                    )],
                ),
            ],
        )
    };
    let node =
        branch(Rule::Class, vec![member("a"), leaf(Rule::ClassIdentifier, "Foo"), member("b")]);
    let class = scan_class(&node).unwrap();
    let names: Vec<String> = class
        .members
        .iter()
        .map(|m| match m {
            Member::Attribute(a) => a.name.clone(),
            Member::Method(m) => m.name.clone(),
        })
        .collect();
    assert_eq!(names, vec!["a", "b"]);
}

#[test]
fn class_errors_come_in_the_order_of_the_parts() {
    assert_eq!(reason(scan_class(&branch(Rule::Class, vec![]))), "class id missing");
    let node = branch(Rule::Class, vec![branch(Rule::MemberStmt, vec![])]);
    assert_eq!(reason(scan_class(&node)), "member: target missing");
}

#[test]
fn relation_needs_its_three_parts() {
    let from = || leaf(Rule::ClassIdentifier, "A");
    assert_eq!(
        reason(scan_relation(&branch(Rule::RelationStmt, vec![]))),
        "relation: from missing"
    );
    assert_eq!(
        reason(scan_relation(&branch(Rule::RelationStmt, vec![from()]))),
        "relation: arrow missing"
    );
    assert_eq!(
        reason(scan_relation(&branch(
            Rule::RelationStmt,
            vec![from(), leaf(Rule::Link, "--")]
        ))),
        "relation: to missing"
    );
}

#[test]
fn relation_of_an_unknown_arrow_is_a_solid_dependency() {
    for rule in [Rule::Comment, Rule::Class, Rule::Diagram, Rule::Visibility, Rule::EndOfInput] {
        assert_eq!(relation_style(rule), (RelationKind::Dependency, LineStyle::Solid));
        let node = branch(
            Rule::RelationStmt,
            vec![
                leaf(Rule::ClassIdentifier, "A"),
                leaf(rule, "o()"),
                leaf(Rule::ClassIdentifier, "B"),
            ],
        );
        let relation = scan_relation(&node).unwrap();
        assert_eq!(relation.from, "A");
        assert_eq!(relation.to, "B");
        assert_eq!(relation.kind, RelationKind::Dependency);
        assert_eq!(relation.line, LineStyle::Solid);
    }
}

#[test]
fn relation_style_is_the_table() {
    assert_eq!(
        relation_style(Rule::Aggregation),
        (RelationKind::Aggregation, LineStyle::Solid)
    );
    assert_eq!(
        relation_style(Rule::Composition),
        (RelationKind::Composition, LineStyle::Solid)
    );
    assert_eq!(relation_style(Rule::Inheritance), (RelationKind::Extension, LineStyle::Solid));
    assert_eq!(relation_style(Rule::Dependency), (RelationKind::Dependency, LineStyle::Dotted));
    assert_eq!(relation_style(Rule::Realization), (RelationKind::Dependency, LineStyle::Dotted));
    assert_eq!(relation_style(Rule::Link), (RelationKind::Dependency, LineStyle::Solid));
    assert_eq!(relation_style(Rule::Association), (RelationKind::Dependency, LineStyle::Solid));
}

#[test]
fn collector_does_not_look_into_statements() {
    let inner_relation = branch(
        Rule::RelationStmt,
        vec![
            leaf(Rule::ClassIdentifier, "A"),
            leaf(Rule::Link, "--"),
            leaf(Rule::ClassIdentifier, "B"),
        ],
    );
    let class_node =
        branch(Rule::Class, vec![leaf(Rule::ClassIdentifier, "Foo"), inner_relation]);
    let mut out = Vec::new();
    collect_stmt(&class_node, &mut out).unwrap();
    assert_eq!(out.len(), 1);
    assert!(matches!(out[0], Stmt::Class(_)));
}

#[test]
fn collector_descends_through_other_nodes_in_order() {
    let relation = |from: &str| {
        branch(
            Rule::RelationStmt,
            vec![
                leaf(Rule::ClassIdentifier, from),
                leaf(Rule::Link, "--"),
                leaf(Rule::ClassIdentifier, "Z"),
            ],
        )
    };
    let tree = branch(
        Rule::Diagram,
        vec![
            relation("A"),
            branch(Rule::Comment, vec![relation("B"), branch(Rule::Note, vec![relation("C")])]),
            leaf(Rule::Note, "note"),
            relation("D"),
        ],
    );
    let mut out = vec![Stmt::Relation(Relation {
        from: "kept".to_string(),
        to: "Z".to_string(),
        kind: RelationKind::Lollipop,
        line: LineStyle::Dotted,
        label_from: None,
        label_to: None,
    })];
    collect_stmt(&tree, &mut out).unwrap();
    let froms: Vec<String> = out
        .iter()
        .map(|s| match s {
            Stmt::Relation(r) => r.from.clone(),
            other => panic!("{:?}", other),
        })
        .collect();
    assert_eq!(froms, vec!["kept", "A", "B", "C", "D"]);
}

#[test]
fn collector_stops_at_the_first_structural_error() {
    let good = branch(
        Rule::RelationStmt,
        vec![
            leaf(Rule::ClassIdentifier, "A"),
            leaf(Rule::Link, "--"),
            leaf(Rule::ClassIdentifier, "B"),
        ],
    );
    let tree = branch(
        Rule::Diagram,
        vec![good, branch(Rule::Class, vec![]), branch(Rule::RelationStmt, vec![])],
    );
    let mut out = Vec::new();
    assert_eq!(reason(collect_stmt(&tree, &mut out)), "class id missing");
    assert_eq!(out.len(), 1);
}

#[test]
fn class_statement_replaces_and_member_statement_appends() {
    let mut diagram = Diagram::new();
    apply_stmt(
        Stmt::Member { target: "pkg::Foo".to_string(), member: attribute("x") },
        &mut diagram,
    );
    {
        let space = diagram.namespaces.get("pkg").expect("namespace");
        assert_eq!(space.name, "pkg");
        assert!(space.children.is_empty());
        let foo = space.classes.get("Foo").expect("placeholder");
        assert_eq!(foo.name, "pkg::Foo");
        assert_eq!(foo.namespace, "pkg");
        assert_eq!(foo.members, vec![attribute("x")]);
    }
    apply_stmt(
        Stmt::Member { target: "pkg::Foo".to_string(), member: attribute("y") },
        &mut diagram,
    );
    assert_eq!(
        diagram.namespaces.get("pkg").unwrap().classes.get("Foo").unwrap().members,
        vec![attribute("x"), attribute("y")]
    );
    apply_stmt(Stmt::Class(class("pkg::Foo", "pkg", vec![attribute("z")])), &mut diagram);
    assert_eq!(
        diagram.namespaces.get("pkg").unwrap().classes.get("Foo").unwrap().members,
        vec![attribute("z")]
    );
    apply_stmt(Stmt::Class(class("Foo", "", vec![])), &mut diagram);
    assert_eq!(diagram.namespaces.len(), 2);
    assert_eq!(diagram.namespaces.get("pkg").unwrap().classes.len(), 1);
    assert_eq!(diagram.namespaces.get("").unwrap().classes.len(), 1);
    assert!(diagram.relations.is_empty());
}

#[test]
fn relation_statement_appends_without_a_check() {
    let mut diagram = Diagram::default();
    let relation = || Relation {
        from: "Nowhere".to_string(),
        to: "Nobody".to_string(),
        kind: RelationKind::Composition,
        line: LineStyle::Solid,
        label_from: None,
        label_to: None,
    };
    apply_stmt(Stmt::Relation(relation()), &mut diagram);
    apply_stmt(Stmt::Relation(relation()), &mut diagram);
    assert_eq!(diagram.relations.len(), 2);
    assert_eq!(diagram.relations[1].from, "Nowhere");
    assert!(diagram.namespaces.is_empty());
}
