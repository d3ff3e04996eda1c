//! The recogniser: the trees it builds and the places at which it stops.

use mermaid_parser::text::{same_text, CharClass, Source};
use mermaid_parser::tree::{Node, Rule};
use mermaid_parser::MermaidParser;

fn rules(nodes: &[Node]) -> Vec<Rule> {
    nodes.iter().map(|n| n.rule).collect()
}

fn texts(nodes: &[Node]) -> Vec<&str> {
    nodes.iter().map(|n| n.text.as_str()).collect()
}

#[test]
fn document_tree_holds_the_statements_in_order() {
    let text = "classDiagram\n%% c\nclass A\nA : +x\nA -- B\nnote \"n\"\n";
    let tree = MermaidParser::parse(Rule::Diagram, text).unwrap();
    assert_eq!(tree.rule, Rule::Diagram);
    assert_eq!((tree.start, tree.end), (0, text.chars().count()));
    assert_eq!(tree.text, text);
    assert_eq!(
        rules(&tree.children),
        vec![Rule::Comment, Rule::Class, Rule::MemberStmt, Rule::RelationStmt, Rule::Note]
    );
    assert_eq!(texts(&tree.children), vec!["%% c", "class A", "A : +x", "A -- B", "note \"n\""]);
    let class = &tree.children[1];
    assert_eq!((class.start, class.end), (18, 25));
    assert_eq!(rules(&class.children), vec![Rule::ClassIdentifier]);
    assert_eq!((class.children[0].start, class.children[0].end), (24, 25));
}

#[test]
fn spans_count_characters() {
    let text = "classDiagram\n%% \u{1F680}\nclass A\n";
    let tree = MermaidParser::parse(Rule::Diagram, text).unwrap();
    assert_eq!((tree.children[0].start, tree.children[0].end), (13, 17));
    assert_eq!(tree.children[0].text, "%% \u{1F680}");
    assert_eq!((tree.children[1].start, tree.children[1].end), (18, 25));
    assert_eq!(tree.end, 26);
}

#[test]
fn member_tree_holds_markers_and_body() {
    let tree = MermaidParser::parse(Rule::MemberStmt, "Foo : +$String owner(int a, b) bool*").unwrap();
    assert_eq!(rules(&tree.children), vec![Rule::ClassIdentifier, Rule::MemberDecl]);
    let decl = &tree.children[1];
    assert_eq!(
        rules(&decl.children),
        vec![Rule::Visibility, Rule::Classifier, Rule::ClassMethodDecl, Rule::Classifier]
    );
    assert_eq!(texts(&decl.children), vec!["+", "$", "String owner(int a, b) bool", "*"]);
    let body = &decl.children[2];
    assert_eq!(
        rules(&body.children),
        vec![
            Rule::ClassIdentifier,
            Rule::MethodIdentifier,
            Rule::MethodParameter,
            Rule::ClassIdentifier
        ]
    );
    let list = &body.children[2];
    assert_eq!(list.text, "int a, b");
    assert_eq!(rules(&list.children), vec![Rule::Parameter, Rule::Parameter]);
    assert_eq!(texts(&list.children), vec!["int a", "b"]);
    assert_eq!(
        rules(&list.children[0].children),
        vec![Rule::ClassIdentifier, Rule::VariableIdentifier]
    );
    assert_eq!(rules(&list.children[1].children), vec![Rule::VariableIdentifier]);
}

#[test]
fn method_is_tried_before_attribute() {
    let tree = MermaidParser::parse(Rule::MemberDecl, "get name").unwrap();
    assert_eq!(rules(&tree.children), vec![Rule::ClassPropertyDecl]);
    assert_eq!(texts(&tree.children[0].children), vec!["get", "name"]);
    let tree = MermaidParser::parse(Rule::MemberDecl, "get ()").unwrap();
    assert_eq!(rules(&tree.children), vec![Rule::ClassMethodDecl]);
    assert_eq!(texts(&tree.children[0].children), vec!["get"]);
}

#[test]
fn property_and_method_rules_take_their_own_shape_only() {
    assert!(MermaidParser::parse(Rule::ClassProperty, "A : +x").is_ok());
    assert!(MermaidParser::parse(Rule::ClassProperty, "A : +x()").is_err());
    assert!(MermaidParser::parse(Rule::ClassMethod, "A : +x()").is_ok());
    assert!(MermaidParser::parse(Rule::ClassMethod, "A : +x").is_err());
    assert!(MermaidParser::parse(Rule::MemberStmt, "A : +x").is_ok());
    assert!(MermaidParser::parse(Rule::MemberStmt, "A : +x()").is_ok());
    assert!(MermaidParser::parse(Rule::MemberStmt, "A : ").is_err());
    assert!(MermaidParser::parse(Rule::MemberStmt, "A +x").is_err());
}

#[test]
fn class_tree_holds_identifier_and_suffixes() {
    let tree = MermaidParser::parse(Rule::Class, "class Box~T~ [\"a box\"] <<service>>").unwrap();
    assert_eq!(
        rules(&tree.children),
        vec![Rule::ClassIdentifier, Rule::Generic, Rule::Label, Rule::Annotation]
    );
    assert_eq!(texts(&tree.children), vec!["Box", "~T~", "[\"a box\"]", "<<service>>"]);
    let explicit = MermaidParser::parse(Rule::ClassExplicit, "class  \tBox").unwrap();
    assert_eq!(explicit.rule, Rule::Class);
    assert_eq!(texts(&explicit.children), vec!["Box"]);
    let labelled = MermaidParser::parse(Rule::ClassLabels, "class Box [\"\"]").unwrap();
    assert_eq!(rules(&labelled.children), vec![Rule::ClassIdentifier, Rule::Label]);
    assert!(MermaidParser::parse(Rule::Class, "classBox").is_err());
    assert!(MermaidParser::parse(Rule::Class, "class Box~~").is_err());
    assert!(MermaidParser::parse(Rule::Class, "class Box <<>>").is_err());
}

#[test]
fn each_arrow_is_matched_as_its_own_rule() {
    let arrows = [
        ("o--", Rule::Aggregation),
        ("*--", Rule::Composition),
        ("<|--", Rule::Inheritance),
        ("<..", Rule::Dependency),
        ("<|..", Rule::Realization),
        ("--", Rule::Link),
        ("<--", Rule::Association),
    ];
    for (arrow, rule) in arrows {
        let text = format!("A {} B", arrow);
        let tree = MermaidParser::parse(Rule::RelationStmt, &text).unwrap();
        assert_eq!(
            rules(&tree.children),
            vec![Rule::ClassIdentifier, rule, Rule::ClassIdentifier]
        );
        assert_eq!(tree.children[1].text, arrow);
        assert!(MermaidParser::parse(rule, arrow).is_ok());
        for (other, other_rule) in arrows {
            if other_rule != rule {
                assert!(MermaidParser::parse(rule, other).is_err(), "{} as {:?}", other, rule);
            }
        }
    }
    assert!(MermaidParser::parse(Rule::RelationStmt, "A --> B").is_err());
    assert!(MermaidParser::parse(Rule::RelationStmt, "A B").is_err());
    assert!(MermaidParser::parse(Rule::RelationStmt, "A --").is_err());
}

#[test]
fn fragment_errors_name_the_start_or_the_end_of_the_match() {
    let e = MermaidParser::parse(Rule::ClassExplicit, "class 1A").unwrap_err();
    assert_eq!((e.position, e.line, e.column), (0, 1, 1));
    assert_eq!(e.expected, vec![Rule::ClassExplicit]);
    let e = MermaidParser::parse(Rule::ClassExplicit, "class My Class").unwrap_err();
    assert_eq!((e.position, e.line, e.column), (8, 1, 9));
    assert_eq!(e.expected, vec![Rule::EndOfInput]);
    let e = MermaidParser::parse(Rule::Comment, "%% one\nclass A").unwrap_err();
    assert_eq!((e.position, e.line, e.column), (6, 1, 7));
    let e = MermaidParser::parse(Rule::Diagram, "classDiagram\n\nclass A\nA :\n").unwrap_err();
    assert_eq!((e.position, e.line, e.column), (22, 4, 1));
}

#[test]
fn every_rule_may_start_a_parse() {
    let accepted = [
        (Rule::Header, "classDiagram"),
        (Rule::ClassIdentifier, "my-class_1"),
        (Rule::Generic, "~List~"),
        (Rule::Label, "[\"x]y\"]"),
        (Rule::Annotation, "<<interface>>"),
        (Rule::Visibility, "~"),
        (Rule::Classifier, "$"),
        (Rule::ClassPropertyDecl, "int x"),
        (Rule::ClassMethodDecl, "int x()"),
        (Rule::VariableIdentifier, "x_1"),
        (Rule::MethodIdentifier, "run"),
        (Rule::MethodParameter, "int a , b"),
        (Rule::Parameter, "int a"),
        (Rule::Comment, "%%"),
        (Rule::Note, "note \"\""),
        (Rule::EndOfLine, "\r\n"),
        (Rule::EndOfLine, "\n"),
        (Rule::EndOfLine, "\r"),
        (Rule::EndOfInput, ""),
    ];
    for (rule, text) in accepted {
        let tree = MermaidParser::parse(rule, text).unwrap_or_else(|e| panic!("{:?}: {:?}", rule, e));
        assert_eq!(tree.rule, rule);
        assert_eq!(tree.text, text);
        assert_eq!((tree.start, tree.end), (0, text.chars().count()));
    }
    let refused = [
        (Rule::Header, "classdiagram"),
        (Rule::ClassIdentifier, "-a"),
        (Rule::VariableIdentifier, "a-b"),
        (Rule::Generic, "~~"),
        (Rule::Label, "[\"x\"y\"]"),
        (Rule::Note, "note\"x\""),
        (Rule::Note, "note \"x"),
        (Rule::EndOfLine, "\n\n"),
        (Rule::EndOfInput, " "),
        (Rule::Diagram, "class A"),
        (Rule::Visibility, "$"),
        (Rule::Classifier, "+"),
    ];
    for (rule, text) in refused {
        assert!(MermaidParser::parse(rule, text).is_err(), "{:?} on {:?}", rule, text);
    }
}

#[test]
fn source_scans_runs_and_locates_positions() {
    let source = Source::new("ab  \tc\n\u{e9}x");
    assert_eq!(source.len(), 9);
    assert_eq!(source.at(0), 'a');
    assert_eq!(source.at(7), '\u{e9}');
    assert!(source.is_at(5, 'c'));
    assert!(!source.is_at(9, 'c'));
    assert_eq!(source.scan(2, CharClass::Blank), 5);
    assert_eq!(source.scan(0, CharClass::Blank), 0);
    assert_eq!(source.scan(0, CharClass::LineText), 6);
    assert_eq!(source.scan(7, CharClass::LineText), 9);
    assert_eq!(source.scan(9, CharClass::LineText), 9);
    assert!(source.word_at(4, "\tc"));
    assert!(source.word_at(9, ""));
    assert!(!source.word_at(8, "xy"));
    assert!(!source.word_at(10, ""));
    assert_eq!(source.slice(7, 9), "\u{e9}x");
    assert_eq!(source.slice(3, 3), "");
    assert_eq!(source.byte_offset(0), 0);
    assert_eq!(source.byte_offset(7), 7);
    assert_eq!(source.byte_offset(8), 9);
    assert_eq!(source.byte_offset(9), 10);
    assert_eq!(source.locate(0), (1, 1));
    assert_eq!(source.locate(6), (1, 7));
    assert_eq!(source.locate(7), (2, 1));
    assert_eq!(source.locate(9), (2, 3));
}

#[test]
fn character_classes() {
    assert!(CharClass::IdentTail.contains('-'));
    assert!(!CharClass::NameTail.contains('-'));
    assert!(CharClass::NameTail.contains('_'));
    assert!(!CharClass::IdentTail.contains('\u{e9}'));
    assert!(CharClass::Layout.contains('\r'));
    assert!(!CharClass::Blank.contains('\n'));
    assert!(CharClass::QuotedText.contains('\u{1F680}'));
    assert!(!CharClass::QuotedText.contains('"'));
    assert!(!CharClass::GenericText.contains('~'));
    assert!(!CharClass::AnnotationText.contains('>'));
    assert!(!CharClass::LineText.contains('\n'));
}

#[test]
fn same_text_compares_characters() {
    assert!(same_text("", ""));
    assert!(same_text("\u{e9}t\u{e9}", "\u{e9}t\u{e9}"));
    assert!(!same_text("a", "b"));
    assert!(!same_text("a", "ab"));
    assert!(!same_text("e", "\u{e9}"));
}
