//! The grammar, one construct at a time: what each rule accepts as a whole
//! input and what it turns away.

use mermaid_parser::tree::Rule;
use mermaid_parser::MermaidParser;

#[test]
fn test_valid_class_names() {
    let valid_names = vec![
        "Animal",
        "MyClass",
        "my_class",
        "my-class",
        "Fahrzeug123",
        "A_very_long_class_name_with_123_and_dashes"
    ];
    for name in valid_names {
        let class_string = format!("class {}", name);
        let parsed = MermaidParser::parse(Rule::ClassExplicit, &class_string);
        println!("{:#?}", parsed);
        assert!(
            parsed.is_ok(),
            "Parser failed to accept valid class name: '{}'", name
        );
    }
}

#[test]
fn test_invalid_class_names() {
    let invalid_names = vec![
        "My Class", "!MyClass", "Class@Name", "#hashtag", "My$Class", "-StartingDash", "\"QuotedClass\"", "-", "Super Car", "Car!", "1startNumber"
    ];
    for name in invalid_names {
        let class_string = format!("class {}", name);
        let parsed = MermaidParser::parse(Rule::ClassExplicit, &class_string);
        println!("{:#?}", parsed);
        assert!(parsed.is_err());
    }
}

#[test]
fn test_valid_class_labels() {
    let valid_labels = vec![
        r#"class Animal["A simple label"]"#,
        r#"class Animal["Label with numbers 123"]"#,
        r#"class Animal["Special characters !@#$%^&*()"]"#,
        r#"class Animal["Label with: punctuation, dots. and commas,"]"#,
        r#"class Animal[""]"#, // Empty label
        r#"class Animal["Label with \n newline"]"#,
        r#"class Animal["Label with [brackets] and {braces}"]"#,
        r#"class Animal["Label with /slashes/ and \\backslashes\\"]"#,
        r#"class Animal["Label with emoji üöÄüëç"]"#,
    ];
    for case in valid_labels {
        let parsed = MermaidParser::parse(Rule::ClassLabels, case);
        println!("{:#?}", parsed);
        assert!(parsed.is_ok());
    }
}

#[test]
fn test_invalid_class_labels() {
    let invalid_labels = vec![
        r#"class Animal[No quotes label]"#,        // Missing quotes
        r#"class Animal["Unclosed label]"#,        // Missing closing quote
        r#"class Animal[Unopened label"]"#,        // Missing opening quote
        r#"class Animal[]"#,                       // Empty brackets, not quotes
        r#"class Animal"#,                         // Missing label section entirely
    ];
    for case in invalid_labels {
        let parsed = MermaidParser::parse(Rule::ClassLabels, case);
        println!("{:#?}", parsed);
        assert!(parsed.is_err());
    }
}

#[test]
fn test_valid_class_properties() {
    let valid_cases = vec![
        r#"BankAccount : +String owner"#,            // Public property
        r#"BankAccount : -BigDecimal balance"#,      // Private property
        r#"BankAccount : #Date created"#,            // Protected property
        r#"BankAccount : ~String status"#,           // Package/internal property
        r#"BankAccount : +int id"#,                  // Simple type
        r#"BankAccount : +f64 amount"#,              // Rust type for diversity
        r#"BankAccount : +isActive"#,                // Property without explicit type
    ];
    for case in valid_cases {
        let parsed = MermaidParser::parse(Rule::ClassProperty, case);
        println!("{:#?}", parsed);
        assert!(parsed.is_ok());
    }
}

#[test]
fn test_valid_class_method() {
    let valid_cases = vec![
        r#"BankAccount : +String owner(testo testo)"#,            // Public property
    ];
    for case in valid_cases {
        let parsed = MermaidParser::parse(Rule::ClassMethod, case);
        println!("{:#?}", parsed);
        assert!(parsed.is_ok());
    }
}

#[test]
fn test_valid_comment() {
    let valid_cases = vec![
        r#"%% Moin das ist ein comment"#,            // Public property
    ];
    for case in valid_cases {
        let parsed = MermaidParser::parse(Rule::Comment, case);
        println!("{:#?}", parsed);
        assert!(parsed.is_ok());
    }
}

#[test]
fn test_valid_note() {
    let valid_cases = vec![
        r#"note "This is a general note""#,            // Public property
    ];
    for case in valid_cases {
        let parsed = MermaidParser::parse(Rule::Note, case);
        println!("{:#?}", parsed);
        assert!(parsed.is_ok());
    }
}
