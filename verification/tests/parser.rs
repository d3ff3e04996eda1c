//! A document with classes, members and relations parses into a diagram
//! with a default namespace.

use mermaid_parser::types::DEFAULT_NAMESPACE;

#[test]
fn parse_class_with_members() {
    let mermaid = r#"classDiagram
%% accounts
class BankAccount
BankAccount : +String owner
BankAccount : -BigDecimal balance
BankAccount : +deposit(BigDecimal amount)
BankAccount : +withdraw(BigDecimal amount) bool
class Customer
Customer <-- BankAccount
note "Every account has an owner"
"#;

    let diagram = mermaid_parser::parser::parse(mermaid).unwrap();
    let ns = diagram.namespaces.get(DEFAULT_NAMESPACE).unwrap();
    println!("{:?}", diagram);
    assert_eq!(ns.classes.len(), 2);
}
