//! A document of class declarations registers its classes in the default
//! namespace.

use mermaid_parser::types::DEFAULT_NAMESPACE;

#[test]
fn single_class_in_default_namespace() {
    let mermaid = r#"classDiagram
class Amy
class Chrissy
class Tom
class Marc
"#;

    let diagram = mermaid_parser::parser::parse(mermaid).unwrap();
    println!("{:?}", diagram);
    let default_ns = diagram
        .namespaces
        .get(DEFAULT_NAMESPACE)
        .expect("default namespace should exist");

    assert!(default_ns.classes.contains_key("Chrissy"));
}
