//! The grammar of class-diagram documents, as functions on `Seq<char>`.
//!
//! Every rule is a spec function from a text and a position to the node that
//! the rule matches there, or `None`. Choices are ordered and the first
//! alternative that matches is taken; repetitions are greedy. The position
//! that a match reaches is the `end` of its node.
//!
//! ```text
//! diagram       = layout "classDiagram" line-end (layout statement line-end)* layout
//! statement     = class | member_stmt | relation_stmt | comment | note
//! class         = "class" blank+ class_identifier generic? (blank* label)? (blank* annotation)?
//! generic       = "~" generic-text+ "~"
//! label         = "[" quoted "]"
//! annotation    = "<<" annotation-text+ ">>"
//! member_stmt   = class_identifier blank* ":" blank* member_decl
//! member_decl   = visibility? classifier* (method | property) classifier*
//! method        = (class_identifier blank+)? method_identifier blank* "(" blank*
//!                 method_parameter? blank* ")" (blank* class_identifier)?
//! property      = (class_identifier blank+)? variable_identifier
//! method_parameter = parameter (blank* "," blank* parameter)*
//! parameter     = (class_identifier blank+)? variable_identifier
//! relation_stmt = class_identifier blank* arrow blank* class_identifier
//! arrow         = "o--" | "*--" | "<|--" | "<|.." | "<.." | "<--" | "--"
//! comment       = "%%" line-text*
//! note          = "note" blank+ quoted
//! quoted        = '"' quoted-text* '"'
//! line-end      = blank* (line-break | end of text)
//! ```

use vstd::prelude::*;
use crate::text::{is_at, is_ident_start, is_line_break, lemma_scan_bounds, scan, word_at, CharClass};
use crate::tree::{branch, end_after, leaf, optional, NodeView, Rule};

verus! {

/// Where a document stopped matching, and what could have stood there.
pub struct Failure {
    pub position: int,
    pub expected: Seq<Rule>,
}

/// Which member bodies a member declaration may hold.
#[derive(Debug, Clone, Copy, PartialEq, Eq, Structural)]
pub enum BodyShape {
    /// An attribute or a method.
    Any,
    /// An attribute only.
    Attribute,
    /// A method only.
    Method,
}

/// The first of two alternatives that matched.
pub open spec fn or(first: Option<NodeView>, second: Option<NodeView>) -> Option<NodeView> {
    if first is Some {
        first
    } else {
        second
    }
}

/// The fixed `word` at position `i`, as a leaf of `rule`.
pub open spec fn token(rule: Rule, s: Seq<char>, i: int, word: Seq<char>) -> Option<NodeView> {
    if word_at(s, i, word) {
        Some(leaf(rule, s, i, i + word.len()))
    } else {
        None
    }
}

/// An identifier of a class or of a type: a letter or an underscore, then
/// letters, digits, underscores and hyphens.
pub open spec fn class_identifier(s: Seq<char>, i: int) -> Option<NodeView> {
    if 0 <= i < s.len() && is_ident_start(s[i]) {
        Some(leaf(Rule::ClassIdentifier, s, i, scan(s, i + 1, CharClass::IdentTail)))
    } else {
        None
    }
}

/// A name, as a leaf of `rule`: a letter or an underscore, then letters,
/// digits and underscores.
pub open spec fn name(rule: Rule, s: Seq<char>, i: int) -> Option<NodeView> {
    if 0 <= i < s.len() && is_ident_start(s[i]) {
        Some(leaf(rule, s, i, scan(s, i + 1, CharClass::NameTail)))
    } else {
        None
    }
}

/// Whether `c` is one of the four visibility markers.
pub open spec fn is_visibility_marker(c: char) -> bool {
    c == '+' || c == '-' || c == '#' || c == '~'
}

/// Whether `c` is one of the two classifier markers.
pub open spec fn is_classifier_marker(c: char) -> bool {
    c == '$' || c == '*'
}

/// A visibility marker.
pub open spec fn visibility(s: Seq<char>, i: int) -> Option<NodeView> {
    if 0 <= i < s.len() && is_visibility_marker(s[i]) {
        Some(leaf(Rule::Visibility, s, i, i + 1))
    } else {
        None
    }
}

/// A classifier marker.
pub open spec fn classifier(s: Seq<char>, i: int) -> Option<NodeView> {
    if 0 <= i < s.len() && is_classifier_marker(s[i]) {
        Some(leaf(Rule::Classifier, s, i, i + 1))
    } else {
        None
    }
}

/// The classifier markers that stand in a row at position `i`.
pub open spec fn classifiers(s: Seq<char>, i: int) -> Seq<NodeView>
    decreases s.len() - i,
{
    match classifier(s, i) {
        Some(c) => seq![c] + classifiers(s, i + 1),
        None => Seq::empty(),
    }
}

/// A type in front of a name: a class identifier and the blanks after it,
/// of which there is at least one. Gives the identifier and the position
/// after the blanks.
pub open spec fn typed(s: Seq<char>, i: int) -> Option<(NodeView, int)> {
    match class_identifier(s, i) {
        Some(t) => {
            let k = scan(s, t.end, CharClass::Blank);
            if k > t.end {
                Some((t, k))
            } else {
                None
            }
        },
        None => None,
    }
}

/// A type and a name, as a node of `rule` whose name is a leaf of `leaf_rule`.
pub open spec fn typed_name(rule: Rule, leaf_rule: Rule, s: Seq<char>, i: int) -> Option<
    NodeView,
> {
    match typed(s, i) {
        Some((t, k)) => match name(leaf_rule, s, k) {
            Some(n) => Some(branch(rule, s, i, n.end, seq![t, n])),
            None => None,
        },
        None => None,
    }
}

/// A name without a type, as a node of `rule` whose name is a leaf of
/// `leaf_rule`.
pub open spec fn bare_name(rule: Rule, leaf_rule: Rule, s: Seq<char>, i: int) -> Option<
    NodeView,
> {
    match name(leaf_rule, s, i) {
        Some(n) => Some(branch(rule, s, i, n.end, seq![n])),
        None => None,
    }
}

/// A parameter: an optional type and a name.
pub open spec fn parameter(s: Seq<char>, i: int) -> Option<NodeView> {
    or(
        typed_name(Rule::Parameter, Rule::VariableIdentifier, s, i),
        bare_name(Rule::Parameter, Rule::VariableIdentifier, s, i),
    )
}

/// The body of an attribute: an optional type and a name.
pub open spec fn class_property_decl(s: Seq<char>, i: int) -> Option<NodeView> {
    or(
        typed_name(Rule::ClassPropertyDecl, Rule::VariableIdentifier, s, i),
        bare_name(Rule::ClassPropertyDecl, Rule::VariableIdentifier, s, i),
    )
}

/// The parameters that follow the first one, each after a comma.
pub open spec fn more_parameters(s: Seq<char>, i: int) -> Seq<NodeView>
    decreases s.len() - i,
{
    let comma = scan(s, i, CharClass::Blank);
    if 0 <= i && is_at(s, comma, ',') {
        match parameter(s, scan(s, comma + 1, CharClass::Blank)) {
            Some(p) => {
                proof {
                    lemma_scan_bounds(s, i, CharClass::Blank);
                    lemma_scan_bounds(s, comma + 1, CharClass::Blank);
                    lemma_parameter_advances(s, scan(s, comma + 1, CharClass::Blank));
                }
                seq![p] + more_parameters(s, p.end)
            },
            None => Seq::empty(),
        }
    } else {
        Seq::empty()
    }
}

/// The parameter list of a method: one parameter or several, separated by
/// commas.
pub open spec fn method_parameter(s: Seq<char>, i: int) -> Option<NodeView> {
    match parameter(s, i) {
        Some(first) => {
            let rest = more_parameters(s, first.end);
            Some(
                branch(
                    Rule::MethodParameter,
                    s,
                    i,
                    end_after(rest, first.end),
                    seq![first] + rest,
                ),
            )
        },
        None => None,
    }
}

/// What follows the optional type of a method: the name, the parenthesised
/// parameter list and the optional return type. Gives the nodes in document
/// order and the position after them.
pub open spec fn method_tail(s: Seq<char>, i: int) -> Option<(Seq<NodeView>, int)> {
    match name(Rule::MethodIdentifier, s, i) {
        Some(n) => {
            let open = scan(s, n.end, CharClass::Blank);
            if is_at(s, open, '(') {
                let params = optional(method_parameter(s, scan(s, open + 1, CharClass::Blank)));
                let close = scan(
                    s,
                    end_after(params, scan(s, open + 1, CharClass::Blank)),
                    CharClass::Blank,
                );
                if is_at(s, close, ')') {
                    let ret = optional(
                        class_identifier(s, scan(s, close + 1, CharClass::Blank)),
                    );
                    Some((seq![n] + params + ret, end_after(ret, close + 1)))
                } else {
                    None
                }
            } else {
                None
            }
        },
        None => None,
    }
}

/// A method whose name follows a type.
pub open spec fn typed_method(s: Seq<char>, i: int) -> Option<NodeView> {
    match typed(s, i) {
        Some((t, k)) => match method_tail(s, k) {
            Some((nodes, end)) => Some(branch(Rule::ClassMethodDecl, s, i, end, seq![t] + nodes)),
            None => None,
        },
        None => None,
    }
}

/// A method without a type in front of its name.
pub open spec fn bare_method(s: Seq<char>, i: int) -> Option<NodeView> {
    match method_tail(s, i) {
        Some((nodes, end)) => Some(branch(Rule::ClassMethodDecl, s, i, end, nodes)),
        None => None,
    }
}

/// The body of a method.
pub open spec fn class_method_decl(s: Seq<char>, i: int) -> Option<NodeView> {
    or(typed_method(s, i), bare_method(s, i))
}

/// A member body of the given shape. Where both are allowed, a method is
/// tried before an attribute.
pub open spec fn member_body(s: Seq<char>, i: int, shape: BodyShape) -> Option<NodeView> {
    match shape {
        BodyShape::Any => or(class_method_decl(s, i), class_property_decl(s, i)),
        BodyShape::Attribute => class_property_decl(s, i),
        BodyShape::Method => class_method_decl(s, i),
    }
}

/// A member: an optional visibility marker, classifier markers, a body of
/// the given shape, and classifier markers again.
pub open spec fn member_decl(s: Seq<char>, i: int, shape: BodyShape) -> Option<NodeView> {
    let marker = optional(visibility(s, i));
    let leading = classifiers(s, end_after(marker, i));
    match member_body(s, end_after(leading, end_after(marker, i)), shape) {
        Some(body) => {
            let trailing = classifiers(s, body.end);
            Some(
                branch(
                    Rule::MemberDecl,
                    s,
                    i,
                    end_after(trailing, body.end),
                    marker + leading + seq![body] + trailing,
                ),
            )
        },
        None => None,
    }
}

/// A member statement whose member has the given shape.
pub open spec fn member_stmt(s: Seq<char>, i: int, shape: BodyShape) -> Option<NodeView> {
    match class_identifier(s, i) {
        Some(target) => {
            let colon = scan(s, target.end, CharClass::Blank);
            if is_at(s, colon, ':') {
                match member_decl(s, scan(s, colon + 1, CharClass::Blank), shape) {
                    Some(decl) => Some(
                        branch(Rule::MemberStmt, s, i, decl.end, seq![target, decl]),
                    ),
                    None => None,
                }
            } else {
                None
            }
        },
        None => None,
    }
}

/// The position after the quoted string that opens at position `i`.
pub open spec fn quoted(s: Seq<char>, i: int) -> Option<int> {
    if is_at(s, i, '"') && is_at(s, scan(s, i + 1, CharClass::QuotedText), '"') {
        Some(scan(s, i + 1, CharClass::QuotedText) + 1)
    } else {
        None
    }
}

/// A generic suffix: a tilde, at least one character, a tilde.
pub open spec fn generic(s: Seq<char>, i: int) -> Option<NodeView> {
    let close = scan(s, i + 1, CharClass::GenericText);
    if is_at(s, i, '~') && close > i + 1 && is_at(s, close, '~') {
        Some(leaf(Rule::Generic, s, i, close + 1))
    } else {
        None
    }
}

/// A label: a quoted string in square brackets.
pub open spec fn label(s: Seq<char>, i: int) -> Option<NodeView> {
    if is_at(s, i, '[') {
        match quoted(s, i + 1) {
            Some(close) => if is_at(s, close, ']') {
                Some(leaf(Rule::Label, s, i, close + 1))
            } else {
                None
            },
            None => None,
        }
    } else {
        None
    }
}

/// A stereotype annotation: `<<`, at least one character, `>>`.
pub open spec fn annotation(s: Seq<char>, i: int) -> Option<NodeView> {
    let inside = i + "<<"@.len();
    let close = scan(s, inside, CharClass::AnnotationText);
    if word_at(s, i, "<<"@) && close > inside && word_at(s, close, ">>"@) {
        Some(leaf(Rule::Annotation, s, i, close + ">>"@.len()))
    } else {
        None
    }
}

/// The head of a class declaration: the keyword, at least one blank, and the
/// identifier, which is the node given.
pub open spec fn class_head(s: Seq<char>, i: int) -> Option<NodeView> {
    let after = i + "class"@.len();
    if word_at(s, i, "class"@) && scan(s, after, CharClass::Blank) > after {
        class_identifier(s, scan(s, after, CharClass::Blank))
    } else {
        None
    }
}

/// A class declaration of the keyword and the identifier alone.
pub open spec fn class_explicit(s: Seq<char>, i: int) -> Option<NodeView> {
    match class_head(s, i) {
        Some(id) => Some(branch(Rule::Class, s, i, id.end, seq![id])),
        None => None,
    }
}

/// A class declaration with a label after the identifier.
pub open spec fn class_labels(s: Seq<char>, i: int) -> Option<NodeView> {
    match class_head(s, i) {
        Some(id) => match label(s, scan(s, id.end, CharClass::Blank)) {
            Some(l) => Some(branch(Rule::Class, s, i, l.end, seq![id, l])),
            None => None,
        },
        None => None,
    }
}

/// A class declaration: the head, then whichever of a generic suffix, a
/// label and an annotation follow, in that order.
pub open spec fn class(s: Seq<char>, i: int) -> Option<NodeView> {
    match class_head(s, i) {
        Some(id) => {
            let suffix = optional(generic(s, id.end));
            let after_suffix = end_after(suffix, id.end);
            let tag = optional(label(s, scan(s, after_suffix, CharClass::Blank)));
            let after_tag = end_after(tag, after_suffix);
            let note = optional(annotation(s, scan(s, after_tag, CharClass::Blank)));
            Some(
                branch(
                    Rule::Class,
                    s,
                    i,
                    end_after(note, after_tag),
                    seq![id] + suffix + tag + note,
                ),
            )
        },
        None => None,
    }
}

/// An arrow. Longer arrows are tried before the arrows they begin with.
pub open spec fn arrow(s: Seq<char>, i: int) -> Option<NodeView> {
    or(
        token(Rule::Aggregation, s, i, "o--"@),
        or(
            token(Rule::Composition, s, i, "*--"@),
            or(
                token(Rule::Inheritance, s, i, "<|--"@),
                or(
                    token(Rule::Realization, s, i, "<|.."@),
                    or(
                        token(Rule::Dependency, s, i, "<.."@),
                        or(
                            token(Rule::Association, s, i, "<--"@),
                            token(Rule::Link, s, i, "--"@),
                        ),
                    ),
                ),
            ),
        ),
    )
}

/// A relation statement.
pub open spec fn relation_stmt(s: Seq<char>, i: int) -> Option<NodeView> {
    match class_identifier(s, i) {
        Some(from) => match arrow(s, scan(s, from.end, CharClass::Blank)) {
            Some(a) => match class_identifier(s, scan(s, a.end, CharClass::Blank)) {
                Some(to) => Some(branch(Rule::RelationStmt, s, i, to.end, seq![from, a, to])),
                None => None,
            },
            None => None,
        },
        None => None,
    }
}

/// A comment: `%%` and the rest of the line.
pub open spec fn comment(s: Seq<char>, i: int) -> Option<NodeView> {
    if word_at(s, i, "%%"@) {
        Some(leaf(Rule::Comment, s, i, scan(s, i + "%%"@.len(), CharClass::LineText)))
    } else {
        None
    }
}

/// A note: the keyword, at least one blank, and a quoted string.
pub open spec fn note(s: Seq<char>, i: int) -> Option<NodeView> {
    let after = i + "note"@.len();
    if word_at(s, i, "note"@) && scan(s, after, CharClass::Blank) > after {
        match quoted(s, scan(s, after, CharClass::Blank)) {
            Some(end) => Some(leaf(Rule::Note, s, i, end)),
            None => None,
        }
    } else {
        None
    }
}

/// A line break: a carriage return and a line feed, or either alone.
pub open spec fn end_of_line(s: Seq<char>, i: int) -> Option<NodeView> {
    if is_at(s, i, '\r') && is_at(s, i + 1, '\n') {
        Some(leaf(Rule::EndOfLine, s, i, i + 2))
    } else if 0 <= i < s.len() && is_line_break(s[i]) {
        Some(leaf(Rule::EndOfLine, s, i, i + 1))
    } else {
        None
    }
}

/// The end of the text.
pub open spec fn end_of_input(s: Seq<char>, i: int) -> Option<NodeView> {
    if i == s.len() {
        Some(leaf(Rule::EndOfInput, s, i, i))
    } else {
        None
    }
}

/// A statement: the first of a class declaration, a member statement, a
/// relation statement, a comment and a note that matches.
pub open spec fn statement(s: Seq<char>, i: int) -> Option<NodeView> {
    or(
        class(s, i),
        or(
            member_stmt(s, i, BodyShape::Any),
            or(relation_stmt(s, i), or(comment(s, i), note(s, i))),
        ),
    )
}

/// The rules that a statement may be a node of.
pub open spec fn statement_rules() -> Seq<Rule> {
    seq![Rule::Class, Rule::MemberStmt, Rule::RelationStmt, Rule::Comment, Rule::Note]
}

/// Whether a line may end at position `i`: only blanks stand between `i`
/// and the next line break or the end of the text.
pub open spec fn line_ends(s: Seq<char>, i: int) -> bool {
    let j = scan(s, i, CharClass::Blank);
    j >= s.len() || is_line_break(s[j])
}

/// The statements from position `i` to the end of the text, each on a line
/// of its own, or the first place at which no statement matches or a line
/// goes on after its statement.
pub open spec fn statements(s: Seq<char>, i: int) -> Result<Seq<NodeView>, Failure>
    decreases s.len() - i,
{
    let at = scan(s, i, CharClass::Layout);
    if i < 0 || at >= s.len() {
        Ok(Seq::empty())
    } else {
        match statement(s, at) {
            Some(n) => if line_ends(s, n.end) {
                proof {
                    lemma_scan_bounds(s, i, CharClass::Layout);
                    lemma_statement_advances(s, at);
                }
                match statements(s, n.end) {
                    Ok(rest) => Ok(seq![n] + rest),
                    Err(failure) => Err(failure),
                }
            } else {
                Err(
                    Failure {
                        position: scan(s, n.end, CharClass::Blank),
                        expected: seq![Rule::EndOfLine],
                    },
                )
            },
            None => Err(Failure { position: at, expected: statement_rules() }),
        }
    }
}

/// The match tree of a whole document: after layout, the header on a line
/// of its own, then the statements. The root spans the whole text and its
/// children are the statements' nodes.
pub open spec fn document(s: Seq<char>) -> Result<NodeView, Failure> {
    let at = scan(s, 0, CharClass::Layout);
    if !word_at(s, at, "classDiagram"@) {
        Err(Failure { position: at, expected: seq![Rule::Header] })
    } else if !line_ends(s, at + "classDiagram"@.len()) {
        Err(
            Failure {
                position: scan(s, at + "classDiagram"@.len(), CharClass::Blank),
                expected: seq![Rule::EndOfLine],
            },
        )
    } else {
        match statements(s, at + "classDiagram"@.len()) {
            Ok(nodes) => Ok(branch(Rule::Diagram, s, 0, s.len() as int, nodes)),
            Err(failure) => Err(failure),
        }
    }
}

/// What `rule` matches at position `i` of `s`. The rule of a whole document
/// matches only through [`document`].
pub open spec fn fragment(rule: Rule, s: Seq<char>, i: int) -> Option<NodeView> {
    match rule {
        Rule::Diagram => None,
        Rule::Header => token(Rule::Header, s, i, "classDiagram"@),
        Rule::Class => class(s, i),
        Rule::ClassExplicit => class_explicit(s, i),
        Rule::ClassLabels => class_labels(s, i),
        Rule::ClassIdentifier => class_identifier(s, i),
        Rule::Generic => generic(s, i),
        Rule::Label => label(s, i),
        Rule::Annotation => annotation(s, i),
        Rule::MemberStmt => member_stmt(s, i, BodyShape::Any),
        Rule::ClassProperty => member_stmt(s, i, BodyShape::Attribute),
        Rule::ClassMethod => member_stmt(s, i, BodyShape::Method),
        Rule::MemberDecl => member_decl(s, i, BodyShape::Any),
        Rule::Visibility => visibility(s, i),
        Rule::Classifier => classifier(s, i),
        Rule::ClassPropertyDecl => class_property_decl(s, i),
        Rule::ClassMethodDecl => class_method_decl(s, i),
        Rule::VariableIdentifier => name(Rule::VariableIdentifier, s, i),
        Rule::MethodIdentifier => name(Rule::MethodIdentifier, s, i),
        Rule::MethodParameter => method_parameter(s, i),
        Rule::Parameter => parameter(s, i),
        Rule::RelationStmt => relation_stmt(s, i),
        Rule::Aggregation => token(Rule::Aggregation, s, i, "o--"@),
        Rule::Composition => token(Rule::Composition, s, i, "*--"@),
        Rule::Inheritance => token(Rule::Inheritance, s, i, "<|--"@),
        Rule::Dependency => token(Rule::Dependency, s, i, "<.."@),
        Rule::Realization => token(Rule::Realization, s, i, "<|.."@),
        Rule::Link => token(Rule::Link, s, i, "--"@),
        Rule::Association => token(Rule::Association, s, i, "<--"@),
        Rule::Comment => comment(s, i),
        Rule::Note => note(s, i),
        Rule::EndOfLine => end_of_line(s, i),
        Rule::EndOfInput => end_of_input(s, i),
    }
}

/// The outcome of matching the whole of `s` against `rule`: the match tree,
/// or the place at which matching stopped. A document is matched by
/// [`document`]; any other rule must match at the start of `s` and reach its
/// end.
pub open spec fn recognize(rule: Rule, s: Seq<char>) -> Result<NodeView, Failure> {
    if rule == Rule::Diagram {
        document(s)
    } else {
        match fragment(rule, s, 0) {
            Some(n) => if n.end == s.len() {
                Ok(n)
            } else {
                Err(Failure { position: n.end, expected: seq![Rule::EndOfInput] })
            },
            None => Err(Failure { position: 0, expected: seq![rule] }),
        }
    }
}

/// An identifier reaches past its first character and not past the text.
pub proof fn lemma_identifier_advances(s: Seq<char>, i: int)
    ensures
        class_identifier(s, i) matches Some(n) ==> i < n.end <= s.len() && n.start == i,
        forall|rule: Rule| (#[trigger] name(rule, s, i)) matches Some(n) ==> i < n.end <= s.len(),
{
    if 0 <= i < s.len() {
        lemma_scan_bounds(s, i + 1, CharClass::IdentTail);
        lemma_scan_bounds(s, i + 1, CharClass::NameTail);
    }
}

/// A type in front of a name reaches past its start.
pub proof fn lemma_typed_advances(s: Seq<char>, i: int)
    ensures
        typed(s, i) matches Some((t, k)) ==> i < t.end < k <= s.len(),
{
    lemma_identifier_advances(s, i);
    if let Some(t) = class_identifier(s, i) {
        lemma_scan_bounds(s, t.end, CharClass::Blank);
    }
}

/// A parameter reaches past its start and not past the text.
pub proof fn lemma_parameter_advances(s: Seq<char>, i: int)
    ensures
        parameter(s, i) matches Some(p) ==> i < p.end <= s.len(),
        class_property_decl(s, i) matches Some(p) ==> i < p.end <= s.len(),
{
    lemma_typed_advances(s, i);
    lemma_identifier_advances(s, i);
    if let Some((t, k)) = typed(s, i) {
        lemma_identifier_advances(s, k);
    }
}

/// The parameters after the first end within the text.
pub proof fn lemma_more_parameters_end(s: Seq<char>, i: int)
    requires
        0 <= i <= s.len(),
    ensures
        i <= end_after(more_parameters(s, i), i) <= s.len(),
    decreases s.len() - i,
{
    let comma = scan(s, i, CharClass::Blank);
    lemma_scan_bounds(s, i, CharClass::Blank);
    if is_at(s, comma, ',') {
        let at = scan(s, comma + 1, CharClass::Blank);
        lemma_scan_bounds(s, comma + 1, CharClass::Blank);
        lemma_parameter_advances(s, at);
        if let Some(p) = parameter(s, at) {
            lemma_more_parameters_end(s, p.end);
            let rest = more_parameters(s, p.end);
            assert(more_parameters(s, i) == seq![p] + rest);
            if rest.len() > 0 {
                assert((seq![p] + rest).last() == rest.last());
            } else {
                assert((seq![p] + rest).last() == p);
            }
        }
    }
}

/// A parameter list reaches past its start and not past the text.
pub proof fn lemma_method_parameter_advances(s: Seq<char>, i: int)
    ensures
        method_parameter(s, i) matches Some(p) ==> i < p.end <= s.len(),
{
    lemma_parameter_advances(s, i);
    if let Some(first) = parameter(s, i) {
        lemma_more_parameters_end(s, first.end);
    }
}

/// The tail of a method reaches past its start and not past the text.
pub proof fn lemma_method_tail_advances(s: Seq<char>, i: int)
    ensures
        method_tail(s, i) matches Some((nodes, end)) ==> i < end <= s.len(),
{
    lemma_identifier_advances(s, i);
    if let Some(n) = name(Rule::MethodIdentifier, s, i) {
        let open = scan(s, n.end, CharClass::Blank);
        lemma_scan_bounds(s, n.end, CharClass::Blank);
        if is_at(s, open, '(') {
            let at = scan(s, open + 1, CharClass::Blank);
            lemma_scan_bounds(s, open + 1, CharClass::Blank);
            lemma_method_parameter_advances(s, at);
            let params = optional(method_parameter(s, at));
            let close = scan(s, end_after(params, at), CharClass::Blank);
            lemma_scan_bounds(s, end_after(params, at), CharClass::Blank);
            if is_at(s, close, ')') {
                let back = scan(s, close + 1, CharClass::Blank);
                lemma_scan_bounds(s, close + 1, CharClass::Blank);
                lemma_identifier_advances(s, back);
            }
        }
    }
}

/// A member body reaches past its start and not past the text.
pub proof fn lemma_member_body_advances(s: Seq<char>, i: int, shape: BodyShape)
    ensures
        member_body(s, i, shape) matches Some(b) ==> i < b.end <= s.len(),
{
    lemma_parameter_advances(s, i);
    lemma_method_tail_advances(s, i);
    lemma_typed_advances(s, i);
    if let Some((t, k)) = typed(s, i) {
        lemma_method_tail_advances(s, k);
    }
}

/// A row of classifier markers ends within the text.
pub proof fn lemma_classifiers_end(s: Seq<char>, i: int)
    requires
        0 <= i <= s.len(),
    ensures
        i <= end_after(classifiers(s, i), i) <= s.len(),
        end_after(classifiers(s, i), i) == i + classifiers(s, i).len(),
    decreases s.len() - i,
{
    if let Some(c) = classifier(s, i) {
        lemma_classifiers_end(s, i + 1);
        let rest = classifiers(s, i + 1);
        if rest.len() > 0 {
            assert((seq![c] + rest).last() == rest.last());
        } else {
            assert((seq![c] + rest).last() == c);
        }
    }
}

/// A member reaches past its start and not past the text.
pub proof fn lemma_member_decl_advances(s: Seq<char>, i: int, shape: BodyShape)
    requires
        0 <= i <= s.len(),
    ensures
        member_decl(s, i, shape) matches Some(d) ==> i < d.end <= s.len(),
{
    let marker = optional(visibility(s, i));
    let after_marker = end_after(marker, i);
    lemma_classifiers_end(s, after_marker);
    let leading = classifiers(s, after_marker);
    let at = end_after(leading, after_marker);
    lemma_member_body_advances(s, at, shape);
    if let Some(body) = member_body(s, at, shape) {
        lemma_classifiers_end(s, body.end);
    }
}

/// A statement reaches past its start and not past the text.
pub proof fn lemma_statement_advances(s: Seq<char>, i: int)
    ensures
        statement(s, i) matches Some(n) ==> i < n.end <= s.len(),
{
    lemma_class_advances(s, i);
    lemma_member_stmt_advances(s, i, BodyShape::Any);
    lemma_relation_advances(s, i);
    lemma_comment_note_advance(s, i);
}

/// A class declaration reaches past its start and not past the text.
pub proof fn lemma_class_advances(s: Seq<char>, i: int)
    ensures
        class_head(s, i) matches Some(id) ==> i < id.end <= s.len(),
        class(s, i) matches Some(n) ==> i < n.end <= s.len(),
        class_explicit(s, i) matches Some(n) ==> i < n.end <= s.len(),
        class_labels(s, i) matches Some(n) ==> i < n.end <= s.len(),
{
    let after = i + "class"@.len();
    if word_at(s, i, "class"@) {
        lemma_scan_bounds(s, after, CharClass::Blank);
        let at = scan(s, after, CharClass::Blank);
        lemma_identifier_advances(s, at);
        if let Some(id) = class_identifier(s, at) {
            lemma_generic_advances(s, id.end);
            let suffix = optional(generic(s, id.end));
            let after_suffix = end_after(suffix, id.end);
            lemma_scan_bounds(s, after_suffix, CharClass::Blank);
            lemma_label_advances(s, scan(s, after_suffix, CharClass::Blank));
            let tag = optional(label(s, scan(s, after_suffix, CharClass::Blank)));
            let after_tag = end_after(tag, after_suffix);
            lemma_scan_bounds(s, after_tag, CharClass::Blank);
            lemma_annotation_advances(s, scan(s, after_tag, CharClass::Blank));
            lemma_scan_bounds(s, id.end, CharClass::Blank);
            lemma_label_advances(s, scan(s, id.end, CharClass::Blank));
        }
    }
}

/// A generic suffix reaches past its start and not past the text.
pub proof fn lemma_generic_advances(s: Seq<char>, i: int)
    ensures
        generic(s, i) matches Some(n) ==> i < n.end <= s.len(),
{
    if 0 <= i < s.len() {
        lemma_scan_bounds(s, i + 1, CharClass::GenericText);
    }
}

/// A quoted string ends past its start and not past the text.
pub proof fn lemma_quoted_advances(s: Seq<char>, i: int)
    ensures
        quoted(s, i) matches Some(end) ==> i < end <= s.len(),
{
    if 0 <= i < s.len() {
        lemma_scan_bounds(s, i + 1, CharClass::QuotedText);
    }
}

/// A label reaches past its start and not past the text.
pub proof fn lemma_label_advances(s: Seq<char>, i: int)
    ensures
        label(s, i) matches Some(n) ==> i < n.end <= s.len(),
{
    lemma_quoted_advances(s, i + 1);
}

/// An annotation reaches past its start and not past the text.
pub proof fn lemma_annotation_advances(s: Seq<char>, i: int)
    ensures
        annotation(s, i) matches Some(n) ==> i < n.end <= s.len(),
{
    if word_at(s, i, "<<"@) {
        lemma_scan_bounds(s, i + "<<"@.len(), CharClass::AnnotationText);
    }
}

/// A member statement reaches past its start and not past the text.
pub proof fn lemma_member_stmt_advances(s: Seq<char>, i: int, shape: BodyShape)
    ensures
        member_stmt(s, i, shape) matches Some(n) ==> i < n.end <= s.len(),
{
    lemma_identifier_advances(s, i);
    if let Some(target) = class_identifier(s, i) {
        lemma_scan_bounds(s, target.end, CharClass::Blank);
        let colon = scan(s, target.end, CharClass::Blank);
        if is_at(s, colon, ':') {
            lemma_scan_bounds(s, colon + 1, CharClass::Blank);
            lemma_member_decl_advances(s, scan(s, colon + 1, CharClass::Blank), shape);
        }
    }
}

/// An arrow ends within the text, at or after its start.
pub proof fn lemma_arrow_advances(s: Seq<char>, i: int)
    ensures
        arrow(s, i) matches Some(a) ==> i <= a.end <= s.len(),
{
}

/// A relation statement reaches past its start and not past the text.
pub proof fn lemma_relation_advances(s: Seq<char>, i: int)
    ensures
        relation_stmt(s, i) matches Some(n) ==> i < n.end <= s.len(),
{
    lemma_identifier_advances(s, i);
    if let Some(from) = class_identifier(s, i) {
        lemma_scan_bounds(s, from.end, CharClass::Blank);
        let at = scan(s, from.end, CharClass::Blank);
        lemma_arrow_advances(s, at);
        if let Some(a) = arrow(s, at) {
            lemma_scan_bounds(s, a.end, CharClass::Blank);
            lemma_identifier_advances(s, scan(s, a.end, CharClass::Blank));
        }
    }
}

/// A comment and a note reach past their start and not past the text.
pub proof fn lemma_comment_note_advance(s: Seq<char>, i: int)
    ensures
        comment(s, i) matches Some(n) ==> i < n.end <= s.len(),
        note(s, i) matches Some(n) ==> i < n.end <= s.len(),
{
    reveal_strlit("%%");
    if word_at(s, i, "%%"@) {
        lemma_scan_bounds(s, i + "%%"@.len(), CharClass::LineText);
    }
    let after = i + "note"@.len();
    if word_at(s, i, "note"@) {
        lemma_scan_bounds(s, after, CharClass::Blank);
        lemma_quoted_advances(s, scan(s, after, CharClass::Blank));
    }
}

} // verus!
