//! Whole documents, from text to diagram.

use mermaid_parser::parser::{parse, ParseError};
use mermaid_parser::tree::Rule;
use mermaid_parser::types::{
    Diagram, LineStyle, Member, RelationKind, Visibility, DEFAULT_NAMESPACE,
};

fn members_of(diagram: &Diagram, class: &str) -> Vec<Member> {
    diagram
        .namespaces
        .get(DEFAULT_NAMESPACE)
        .expect("default namespace")
        .classes
        .get(class)
        .expect("class")
        .members
        .clone()
}

fn only_member(line: &str) -> Member {
    let document = format!("classDiagram\n{}\n", line);
    let diagram = parse(&document).expect("document parses");
    let members = members_of(&diagram, "Foo");
    assert_eq!(members.len(), 1);
    members[0].clone()
}

#[test]
fn declared_classes_are_exactly_the_keys() {
    let diagram = parse("classDiagram\nclass Amy\nclass Chrissy\nclass Tom\nclass Marc\n").unwrap();
    assert_eq!(diagram.namespaces.len(), 1);
    let classes = &diagram.namespaces.get(DEFAULT_NAMESPACE).unwrap().classes;
    assert_eq!(classes.len(), 4);
    for name in ["Amy", "Chrissy", "Tom", "Marc"] {
        let class = classes.get(name).expect("declared class");
        assert_eq!(class.name, name);
        assert_eq!(class.namespace, DEFAULT_NAMESPACE);
        assert!(class.members.is_empty());
        assert!(class.generic.is_none());
        assert!(class.annotations.is_empty());
    }
    assert!(!classes.contains_key("amy"));
    assert!(diagram.relations.is_empty());
}

#[test]
fn classes_keep_the_order_of_their_declaration() {
    let diagram = parse("classDiagram\nclass B\nclass A\nclass B\n").unwrap();
    let classes = &diagram.namespaces.get(DEFAULT_NAMESPACE).unwrap().classes;
    assert_eq!(classes.len(), 2);
    assert_eq!(classes.name_at(0), "B");
    assert_eq!(classes.name_at(1), "A");
    assert_eq!(classes.value_at(1).name, "A");
}

#[test]
fn header_alone_gives_the_empty_diagram() {
    for document in ["classDiagram", "classDiagram\n", "\n\n  classDiagram  \n\n", "classDiagram\r\n"] {
        let diagram = parse(document).unwrap();
        assert!(diagram.namespaces.is_empty());
        assert_eq!(diagram.namespaces.len(), 0);
        assert!(diagram.relations.is_empty());
        assert!(diagram.namespaces.get(DEFAULT_NAMESPACE).is_none());
    }
}

#[test]
fn comments_notes_and_blank_lines_leave_no_trace() {
    let diagram = parse(
        "classDiagram\n\n%% a comment\n   \n\tnote \"about nothing\"\nclass A\n%% class B\n",
    )
    .unwrap();
    let classes = &diagram.namespaces.get(DEFAULT_NAMESPACE).unwrap().classes;
    assert_eq!(classes.len(), 1);
    assert!(classes.contains_key("A"));
    assert!(!classes.contains_key("B"));
}

#[test]
fn lines_may_end_in_carriage_return_and_line_feed() {
    let diagram = parse("classDiagram\r\nclass A\r\nA : +x\r\n").unwrap();
    let members = members_of(&diagram, "A");
    assert_eq!(members.len(), 1);
}

#[test]
fn each_visibility_marker_decodes_to_its_level() {
    let cases = [
        ("Foo : +x", Visibility::Public),
        ("Foo : -x", Visibility::Private),
        ("Foo : #x", Visibility::Protected),
        ("Foo : ~x", Visibility::Package),
        ("Foo : x", Visibility::Unspecified),
    ];
    for (line, expected) in cases {
        match only_member(line) {
            Member::Attribute(a) => {
                assert_eq!(a.visibility, expected);
                assert_eq!(a.name, "x");
            }
            Member::Method(_) => panic!("an attribute was declared"),
        }
    }
    let methods = [
        ("Foo : +run()", Visibility::Public),
        ("Foo : -run()", Visibility::Private),
        ("Foo : #run()", Visibility::Protected),
        ("Foo : ~run()", Visibility::Package),
        ("Foo : run()", Visibility::Unspecified),
    ];
    for (line, expected) in methods {
        match only_member(line) {
            Member::Method(m) => assert_eq!(m.visibility, expected),
            Member::Attribute(_) => panic!("a method was declared"),
        }
    }
}

#[test]
fn visibility_from_char_has_five_outcomes() {
    assert_eq!(Visibility::from('+'), Visibility::Public);
    assert_eq!(Visibility::from('-'), Visibility::Private);
    assert_eq!(Visibility::from('#'), Visibility::Protected);
    assert_eq!(Visibility::from('~'), Visibility::Package);
    for c in ['a', ' ', '$', '*', '0', '\u{e9}'] {
        assert_eq!(Visibility::from(c), Visibility::Unspecified);
    }
}

#[test]
fn static_and_abstract_are_independent() {
    let both = ["Foo : +$*run()", "Foo : +*$run()", "Foo : +run()$*", "Foo : +$run()*", "Foo : *run()$"];
    for line in both {
        match only_member(line) {
            Member::Method(m) => {
                assert!(m.is_static, "{}", line);
                assert!(m.is_abstract, "{}", line);
            }
            Member::Attribute(_) => panic!("a method was declared"),
        }
    }
    match only_member("Foo : +run()$") {
        Member::Method(m) => assert!(m.is_static && !m.is_abstract),
        Member::Attribute(_) => panic!("a method was declared"),
    }
    match only_member("Foo : +run()*") {
        Member::Method(m) => assert!(!m.is_static && m.is_abstract),
        Member::Attribute(_) => panic!("a method was declared"),
    }
    match only_member("Foo : +run()") {
        Member::Method(m) => assert!(!m.is_static && !m.is_abstract),
        Member::Attribute(_) => panic!("a method was declared"),
    }
}

#[test]
fn attributes_take_the_static_marker_only() {
    for line in ["Foo : +String owner$", "Foo : +$String owner", "Foo : $owner"] {
        match only_member(line) {
            Member::Attribute(a) => {
                assert!(a.is_static, "{}", line);
                assert_eq!(a.name, "owner");
            }
            Member::Method(_) => panic!("an attribute was declared"),
        }
    }
    match only_member("Foo : +owner*") {
        Member::Attribute(a) => assert!(!a.is_static),
        Member::Method(_) => panic!("an attribute was declared"),
    }
    match only_member("Foo : +owner") {
        Member::Attribute(a) => assert!(!a.is_static),
        Member::Method(_) => panic!("an attribute was declared"),
    }
}

#[test]
fn attribute_carries_its_type_and_name() {
    match only_member("Foo : -BigDecimal balance") {
        Member::Attribute(a) => {
            assert_eq!(a.name, "balance");
            assert_eq!(a.data_type.as_deref(), Some("BigDecimal"));
            assert_eq!(a.visibility, Visibility::Private);
            assert!(!a.is_static);
        }
        Member::Method(_) => panic!("an attribute was declared"),
    }
    match only_member("Foo : +isActive") {
        Member::Attribute(a) => {
            assert_eq!(a.name, "isActive");
            assert_eq!(a.data_type, None);
        }
        Member::Method(_) => panic!("an attribute was declared"),
    }
}

#[test]
fn method_carries_its_parameters_and_return_type() {
    match only_member("Foo : +String owner(testo testo)") {
        Member::Method(m) => {
            assert_eq!(m.name, "owner");
            assert_eq!(m.return_type.as_deref(), Some("String"));
            assert_eq!(m.parameters.len(), 1);
            assert_eq!(m.parameters[0].name, "testo");
            assert_eq!(m.parameters[0].data_type.as_deref(), Some("testo"));
        }
        Member::Attribute(_) => panic!("a method was declared"),
    }
    match only_member("Foo : #transfer( Account from , Account to,amount ) bool") {
        Member::Method(m) => {
            assert_eq!(m.name, "transfer");
            assert_eq!(m.visibility, Visibility::Protected);
            assert_eq!(m.return_type.as_deref(), Some("bool"));
            let names: Vec<&str> = m.parameters.iter().map(|p| p.name.as_str()).collect();
            assert_eq!(names, vec!["from", "to", "amount"]);
            let types: Vec<Option<&str>> =
                m.parameters.iter().map(|p| p.data_type.as_deref()).collect();
            assert_eq!(types, vec![Some("Account"), Some("Account"), None]);
        }
        Member::Attribute(_) => panic!("a method was declared"),
    }
    match only_member("Foo : run()") {
        Member::Method(m) => {
            assert!(m.parameters.is_empty());
            assert_eq!(m.return_type, None);
        }
        Member::Attribute(_) => panic!("a method was declared"),
    }
    match only_member("Foo : int size() long") {
        Member::Method(m) => assert_eq!(m.return_type.as_deref(), Some("long")),
        Member::Attribute(_) => panic!("a method was declared"),
    }
}

#[test]
fn members_keep_the_order_of_their_declaration() {
    let diagram = parse("classDiagram\nFoo : +b\nFoo : +a()\nFoo : +b\n").unwrap();
    let members = members_of(&diagram, "Foo");
    let names: Vec<String> = members
        .iter()
        .map(|m| match m {
            Member::Attribute(a) => a.name.clone(),
            Member::Method(m) => m.name.clone(),
        })
        .collect();
    assert_eq!(names, vec!["b", "a", "b"]);
}

#[test]
fn member_statement_creates_its_class() {
    let diagram = parse("classDiagram\nBankAccount : +String owner\n").unwrap();
    let class = diagram
        .namespaces
        .get(DEFAULT_NAMESPACE)
        .unwrap()
        .classes
        .get("BankAccount")
        .unwrap();
    assert_eq!(class.name, "BankAccount");
    assert_eq!(class.namespace, "");
    assert_eq!(class.members.len(), 1);
}

#[test]
fn each_arrow_maps_to_its_kind_and_line() {
    let table = [
        ("o--", RelationKind::Aggregation, LineStyle::Solid),
        ("*--", RelationKind::Composition, LineStyle::Solid),
        ("<|--", RelationKind::Extension, LineStyle::Solid),
        ("<..", RelationKind::Dependency, LineStyle::Dotted),
        ("<|..", RelationKind::Dependency, LineStyle::Dotted),
        ("--", RelationKind::Dependency, LineStyle::Solid),
        ("<--", RelationKind::Dependency, LineStyle::Solid),
    ];
    for (arrow, kind, line) in table {
        let document = format!("classDiagram\nAnimal {} Dog\n", arrow);
        let diagram = parse(&document).unwrap();
        assert_eq!(diagram.relations.len(), 1, "{}", arrow);
        let relation = &diagram.relations[0];
        assert_eq!(relation.from, "Animal");
        assert_eq!(relation.to, "Dog");
        assert_eq!(relation.kind, kind, "{}", arrow);
        assert_eq!(relation.line, line, "{}", arrow);
        assert_eq!(relation.label_from, None);
        assert_eq!(relation.label_to, None);
        assert!(diagram.namespaces.is_empty());
    }
}

#[test]
fn arrows_need_no_blanks_where_the_text_is_unambiguous() {
    let diagram = parse("classDiagram\nAnimal<|--Dog\nA *--B\n").unwrap();
    assert_eq!(diagram.relations.len(), 2);
    assert_eq!(diagram.relations[0].kind, RelationKind::Extension);
    assert_eq!(diagram.relations[1].from, "A");
    assert_eq!(diagram.relations[1].to, "B");
}

#[test]
fn relations_keep_the_order_of_their_declaration() {
    let diagram = parse("classDiagram\nB -- A\nclass C\nA -- B\nB -- A\n").unwrap();
    let pairs: Vec<(&str, &str)> = diagram
        .relations
        .iter()
        .map(|r| (r.from.as_str(), r.to.as_str()))
        .collect();
    assert_eq!(pairs, vec![("B", "A"), ("A", "B"), ("B", "A")]);
}

#[test]
fn relations_do_not_declare_their_classes() {
    let diagram = parse("classDiagram\nA <|-- B\n").unwrap();
    assert!(diagram.namespaces.is_empty());
}

#[test]
fn parsing_twice_gives_equal_diagrams() {
    let document = "classDiagram\nclass A\nA : +x\nB : -run(int n) bool\nA <|-- B\nclass C~T~\n";
    let first = parse(document).unwrap();
    let second = parse(document).unwrap();
    assert_eq!(format!("{:?}", first), format!("{:?}", second));
    assert_eq!(first.namespaces.len(), second.namespaces.len());
    let a = &first.namespaces.get(DEFAULT_NAMESPACE).unwrap().classes;
    let b = &second.namespaces.get(DEFAULT_NAMESPACE).unwrap().classes;
    assert_eq!(a.len(), b.len());
    for i in 0..a.len() {
        let name = a.name_at(i);
        assert_eq!(a.get(name).unwrap().members, b.get(name).unwrap().members);
    }
    let failed = "classDiagram\nclass 1A\n";
    assert_eq!(format!("{:?}", parse(failed)), format!("{:?}", parse(failed)));
}

#[test]
fn malformed_identifiers_are_syntax_errors() {
    let names = [
        "My Class", "!MyClass", "Class@Name", "#hashtag", "My$Class", "-StartingDash",
        "\"QuotedClass\"", "-", "Super Car", "Car!", "1startNumber",
    ];
    for name in names {
        let document = format!("classDiagram\nclass {}\n", name);
        match parse(&document) {
            Err(ParseError::Syntax(e)) => {
                assert_eq!(e.line, 2, "{}", name);
                assert!(!e.expected.is_empty());
            }
            other => panic!("{:?} for {}", other, name),
        }
    }
}

#[test]
fn member_declared_before_its_class_is_dropped() {
    let diagram = parse("classDiagram\nFoo : +x\nclass Foo\n").unwrap();
    assert!(members_of(&diagram, "Foo").is_empty());
    let classes = &diagram.namespaces.get(DEFAULT_NAMESPACE).unwrap().classes;
    assert_eq!(classes.len(), 1);

    let kept = parse("classDiagram\nclass Foo\nFoo : +x\n").unwrap();
    assert_eq!(members_of(&kept, "Foo").len(), 1);

    let again = parse("classDiagram\nclass Foo\nFoo : +x\nclass Foo\nFoo : +y\n").unwrap();
    let members = members_of(&again, "Foo");
    assert_eq!(members.len(), 1);
    match &members[0] {
        Member::Attribute(a) => assert_eq!(a.name, "y"),
        Member::Method(_) => panic!("an attribute was declared"),
    }
}

#[test]
fn class_suffixes_are_accepted_and_not_recorded() {
    let diagram = parse(
        "classDiagram\nclass Box~T~\nclass Shape[\"A shape\"]\nclass Duck <<interface>>\nclass All~K~ [\"x\"] <<service>>\n",
    )
    .unwrap();
    let classes = &diagram.namespaces.get(DEFAULT_NAMESPACE).unwrap().classes;
    assert_eq!(classes.len(), 4);
    for name in ["Box", "Shape", "Duck", "All"] {
        let class = classes.get(name).unwrap();
        assert_eq!(class.generic, None);
        assert!(class.annotations.is_empty());
    }
}

#[test]
fn syntax_error_names_the_place_and_what_was_expected() {
    match parse("") {
        Err(ParseError::Syntax(e)) => {
            assert_eq!((e.position, e.line, e.column), (0, 1, 1));
            assert_eq!(e.expected, vec![Rule::Header]);
        }
        other => panic!("{:?}", other),
    }
    match parse("\n\n  graph TD\n") {
        Err(ParseError::Syntax(e)) => {
            assert_eq!((e.position, e.line, e.column), (4, 3, 3));
            assert_eq!(e.expected, vec![Rule::Header]);
        }
        other => panic!("{:?}", other),
    }
    match parse("classDiagram extra\n") {
        Err(ParseError::Syntax(e)) => {
            assert_eq!((e.position, e.line, e.column), (13, 1, 14));
            assert_eq!(e.byte, 13);
            assert_eq!(e.expected, vec![Rule::EndOfLine]);
        }
        other => panic!("{:?}", other),
    }
    match parse("classDiagram\nclass A\n  ???\n") {
        Err(ParseError::Syntax(e)) => {
            assert_eq!((e.position, e.line, e.column), (23, 3, 3));
            assert_eq!(
                e.expected,
                vec![
                    Rule::Class,
                    Rule::MemberStmt,
                    Rule::RelationStmt,
                    Rule::Comment,
                    Rule::Note
                ]
            );
        }
        other => panic!("{:?}", other),
    }
    match parse("classDiagram\nclass My Class\n") {
        Err(ParseError::Syntax(e)) => {
            assert_eq!((e.position, e.line, e.column), (22, 2, 10));
            assert_eq!(e.expected, vec![Rule::EndOfLine]);
        }
        other => panic!("{:?}", other),
    }
}

#[test]
fn positions_count_characters_not_bytes() {
    match parse("classDiagram\n%% \u{1F680}\u{e9}\n\u{e9}\n") {
        Err(ParseError::Syntax(e)) => {
            assert_eq!((e.position, e.line, e.column), (19, 3, 1));
            assert_eq!(e.byte, 23);
        }
        other => panic!("{:?}", other),
    }
}

#[test]
fn no_diagram_comes_with_an_error() {
    let outcome = parse("classDiagram\nclass A\nclass B\n!\n");
    assert!(matches!(outcome, Err(ParseError::Syntax(_))));
}

#[test]
fn long_documents_are_parsed() {
    let mut document = String::from("classDiagram\n");
    for i in 0..2000 {
        document.push_str(&format!("class Class{}\n", i));
        document.push_str(&format!("Class{} : +String field{}(int a, Class{} b) bool$\n", i, i, i));
        document.push_str(&format!("Class{} <|-- Class{}\n", i, i + 1));
        document.push_str("%% \u{1F680} a comment with characters of several bytes \u{e9}\n");
    }
    let diagram = parse(&document).unwrap();
    let classes = &diagram.namespaces.get(DEFAULT_NAMESPACE).unwrap().classes;
    assert_eq!(classes.len(), 2000);
    assert_eq!(diagram.relations.len(), 2000);
    assert_eq!(classes.get("Class1999").unwrap().members.len(), 1);
    assert_eq!(diagram.relations[1999].to, "Class2000");
}
