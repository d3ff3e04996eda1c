//! The recogniser: matches a text against the grammar and builds the match
//! tree, or reports where the text stopped matching.
//!
//! Every function here computes what the spec function of the same name in
//! [`crate::grammar`] defines.

use vstd::prelude::*;
use vstd::string::*;
use crate::grammar;
use crate::grammar::{BodyShape, Failure};
use crate::text::{column_of, ident_start, line_of, prefix_bytes, CharClass, Source};
use crate::tree::{branch, end_after, leaf, lemma_children_views, views, Node, NodeView, Rule};

verus! {

/// A document that does not match the grammar: the place at which matching
/// stopped, and the grammar symbols that could have stood there.
#[derive(Debug)]
pub struct SyntaxError {
    /// The position at which matching stopped, in characters from the start.
    pub position: usize,
    /// The same position in bytes of the document's UTF-8 encoding.
    pub byte: usize,
    /// The line of that position, counted from 1.
    pub line: usize,
    /// The column of that position within its line, counted from 1.
    pub column: usize,
    /// The symbols that were expected at that position.
    pub expected: Vec<Rule>,
}

/// The mathematical model of a [`SyntaxError`].
pub struct SyntaxErrorView {
    pub position: int,
    pub byte: nat,
    pub line: nat,
    pub column: nat,
    pub expected: Seq<Rule>,
}

impl View for SyntaxError {
    type V = SyntaxErrorView;

    open spec fn view(&self) -> SyntaxErrorView {
        SyntaxErrorView {
            position: self.position as int,
            byte: self.byte as nat,
            line: self.line as nat,
            column: self.column as nat,
            expected: self.expected@,
        }
    }
}

/// The syntax error that reports `failure` in the text `s`.
pub open spec fn located(s: Seq<char>, failure: Failure) -> SyntaxErrorView {
    SyntaxErrorView {
        position: failure.position,
        byte: prefix_bytes(s, failure.position),
        line: line_of(s, failure.position),
        column: column_of(s, failure.position),
        expected: failure.expected,
    }
}

/// The outcome of matching the whole of `s` against `rule`, with a failure
/// located by line and column.
pub open spec fn parse_tree(rule: Rule, s: Seq<char>) -> Result<NodeView, SyntaxErrorView> {
    match grammar::recognize(rule, s) {
        Ok(tree) => Ok(tree),
        Err(failure) => Err(located(s, failure)),
    }
}

/// Whether the outcome `r` is the outcome `expected`.
pub open spec fn is_outcome(
    r: Result<Node, SyntaxError>,
    expected: Result<NodeView, SyntaxErrorView>,
) -> bool {
    match (r, expected) {
        (Ok(tree), Ok(model)) => tree@ == model,
        (Err(error), Err(model)) => error@ == model,
        _ => false,
    }
}

/// Whether the match `r` is the match `expected`.
pub open spec fn is_match(r: Option<Node>, expected: Option<NodeView>) -> bool {
    match (r, expected) {
        (Some(node), Some(model)) => node@ == model,
        (None, None) => true,
        _ => false,
    }
}

/// Whether the match `r`, a node and the position after what follows it, is
/// the match `expected`.
pub open spec fn is_match_at(r: Option<(Node, usize)>, expected: Option<(NodeView, int)>) -> bool {
    match (r, expected) {
        (Some((node, at)), Some((model, position))) => node@ == model && at == position,
        (None, None) => true,
        _ => false,
    }
}

/// The models of a row of nodes with one more are the models of the row with
/// the model of that one.
proof fn lemma_views_push(nodes: Seq<Node>, node: Node)
    ensures
        views(nodes.push(node)) == views(nodes).push(node@),
{
    assert(views(nodes.push(node)) =~= views(nodes).push(node@));
}

/// The position after two rows of nodes is the position after the second,
/// counted from the position after the first.
proof fn lemma_end_after_add(a: Seq<NodeView>, b: Seq<NodeView>, i: int)
    ensures
        end_after(a + b, i) == end_after(b, end_after(a, i)),
{
    if b.len() > 0 {
        assert((a + b).last() == b.last());
    } else {
        assert(a + b =~= a);
    }
}

/// The node of `rule` over positions `start` to `end` that holds `children`.
fn make(src: &Source, rule: Rule, start: usize, end: usize, children: Vec<Node>) -> (node: Node)
    requires
        start <= end <= src@.len(),
    ensures
        node@ == branch(rule, src@, start as int, end as int, views(children@)),
{
    let node = Node { rule, start, end, text: src.slice(start, end), children };
    proof {
        lemma_children_views(&node);
    }
    node
}

/// The childless node of `rule` over positions `start` to `end`.
fn make_leaf(src: &Source, rule: Rule, start: usize, end: usize) -> (node: Node)
    requires
        start <= end <= src@.len(),
    ensures
        node@ == leaf(rule, src@, start as int, end as int),
{
    let children: Vec<Node> = Vec::new();
    assert(views(children@) =~= Seq::<NodeView>::empty());
    make(src, rule, start, end, children)
}

fn token(src: &Source, rule: Rule, i: usize, word: &str) -> (r: Option<Node>)
    ensures
        is_match(r, grammar::token(rule, src@, i as int, word@)),
{
    if src.word_at(i, word) {
        let n = word.unicode_len();
        Some(make_leaf(src, rule, i, i + n))
    } else {
        None
    }
}

fn class_identifier(src: &Source, i: usize) -> (r: Option<Node>)
    ensures
        is_match(r, grammar::class_identifier(src@, i as int)),
        r matches Some(n) ==> i < n.end <= src@.len(),
{
    if i < src.len() && ident_start(src.at(i)) {
        let end = src.scan(i + 1, CharClass::IdentTail);
        Some(make_leaf(src, Rule::ClassIdentifier, i, end))
    } else {
        None
    }
}

fn name(src: &Source, rule: Rule, i: usize) -> (r: Option<Node>)
    ensures
        is_match(r, grammar::name(rule, src@, i as int)),
        r matches Some(n) ==> i < n.end <= src@.len(),
{
    if i < src.len() && ident_start(src.at(i)) {
        let end = src.scan(i + 1, CharClass::NameTail);
        Some(make_leaf(src, rule, i, end))
    } else {
        None
    }
}

fn visibility(src: &Source, i: usize) -> (r: Option<Node>)
    ensures
        is_match(r, grammar::visibility(src@, i as int)),
        r matches Some(n) ==> n.end == i + 1 && n.end <= src@.len(),
{
    if i < src.len() {
        let c = src.at(i);
        if c == '+' || c == '-' || c == '#' || c == '~' {
            return Some(make_leaf(src, Rule::Visibility, i, i + 1));
        }
    }
    None
}

fn classifier(src: &Source, i: usize) -> (r: Option<Node>)
    ensures
        is_match(r, grammar::classifier(src@, i as int)),
        r matches Some(n) ==> n.end == i + 1 && n.end <= src@.len(),
{
    if i < src.len() {
        let c = src.at(i);
        if c == '$' || c == '*' {
            return Some(make_leaf(src, Rule::Classifier, i, i + 1));
        }
    }
    None
}

/// Appends the classifier markers that stand in a row at `i` to `out` and
/// gives the position after them.
fn classifiers(src: &Source, i: usize, out: &mut Vec<Node>) -> (end: usize)
    requires
        i <= src@.len(),
    ensures
        views(final(out)@) == views(old(out)@) + grammar::classifiers(src@, i as int),
        end == end_after(grammar::classifiers(src@, i as int), i as int),
        i <= end <= src@.len(),
{
    let mut end = i;
    loop
        invariant
            i <= end <= src@.len(),
            views(out@) + grammar::classifiers(src@, end as int) == views(old(out)@)
                + grammar::classifiers(src@, i as int),
            end_after(grammar::classifiers(src@, end as int), end as int) == end_after(
                grammar::classifiers(src@, i as int),
                i as int,
            ),
        ensures
            i <= end <= src@.len(),
            views(out@) == views(old(out)@) + grammar::classifiers(src@, i as int),
            end == end_after(grammar::classifiers(src@, i as int), i as int),
        decreases src@.len() - end,
    {
        match classifier(src, end) {
            Some(c) => {
                proof {
                    let rest = grammar::classifiers(src@, end + 1);
                    lemma_views_push(out@, c);
                    assert(views(out@).push(c@) + rest =~= views(out@) + (seq![c@] + rest));
                    lemma_end_after_add(seq![c@], rest, end as int);
                }
                end = end + 1;
                out.push(c);
            },
            None => {
                assert(views(out@) + Seq::<NodeView>::empty() =~= views(out@));
                break ;
            },
        }
    }
    end
}

fn typed(src: &Source, i: usize) -> (r: Option<(Node, usize)>)
    ensures
        is_match_at(r, grammar::typed(src@, i as int)),
        r matches Some((t, k)) ==> i < k <= src@.len(),
{
    match class_identifier(src, i) {
        Some(t) => {
            let k = src.scan(t.end, CharClass::Blank);
            if k > t.end {
                Some((t, k))
            } else {
                None
            }
        },
        None => None,
    }
}

fn typed_name(src: &Source, rule: Rule, leaf_rule: Rule, i: usize) -> (r: Option<Node>)
    ensures
        is_match(r, grammar::typed_name(rule, leaf_rule, src@, i as int)),
        r matches Some(n) ==> i < n.end <= src@.len(),
{
    match typed(src, i) {
        Some((t, k)) => match name(src, leaf_rule, k) {
            Some(n) => {
                let end = n.end;
                let mut children: Vec<Node> = Vec::new();
                children.push(t);
                children.push(n);
                assert(views(children@) =~= seq![t@, n@]);
                Some(make(src, rule, i, end, children))
            },
            None => None,
        },
        None => None,
    }
}

fn bare_name(src: &Source, rule: Rule, leaf_rule: Rule, i: usize) -> (r: Option<Node>)
    ensures
        is_match(r, grammar::bare_name(rule, leaf_rule, src@, i as int)),
        r matches Some(n) ==> i < n.end <= src@.len(),
{
    match name(src, leaf_rule, i) {
        Some(n) => {
            let end = n.end;
            let mut children: Vec<Node> = Vec::new();
            children.push(n);
            assert(views(children@) =~= seq![n@]);
            Some(make(src, rule, i, end, children))
        },
        None => None,
    }
}

fn parameter(src: &Source, i: usize) -> (r: Option<Node>)
    ensures
        is_match(r, grammar::parameter(src@, i as int)),
        r matches Some(n) ==> i < n.end <= src@.len(),
{
    match typed_name(src, Rule::Parameter, Rule::VariableIdentifier, i) {
        Some(n) => Some(n),
        None => bare_name(src, Rule::Parameter, Rule::VariableIdentifier, i),
    }
}

fn class_property_decl(src: &Source, i: usize) -> (r: Option<Node>)
    ensures
        is_match(r, grammar::class_property_decl(src@, i as int)),
        r matches Some(n) ==> i < n.end <= src@.len(),
{
    match typed_name(src, Rule::ClassPropertyDecl, Rule::VariableIdentifier, i) {
        Some(n) => Some(n),
        None => bare_name(src, Rule::ClassPropertyDecl, Rule::VariableIdentifier, i),
    }
}

/// Appends the parameters that follow the first one to `out` and gives the
/// position after them.
fn more_parameters(src: &Source, i: usize, out: &mut Vec<Node>) -> (end: usize)
    requires
        i <= src@.len(),
    ensures
        views(final(out)@) == views(old(out)@) + grammar::more_parameters(src@, i as int),
        end == end_after(grammar::more_parameters(src@, i as int), i as int),
        i <= end <= src@.len(),
{
    let mut end = i;
    loop
        invariant
            i <= end <= src@.len(),
            views(out@) + grammar::more_parameters(src@, end as int) == views(old(out)@)
                + grammar::more_parameters(src@, i as int),
            end_after(grammar::more_parameters(src@, end as int), end as int) == end_after(
                grammar::more_parameters(src@, i as int),
                i as int,
            ),
        ensures
            i <= end <= src@.len(),
            views(out@) == views(old(out)@) + grammar::more_parameters(src@, i as int),
            end == end_after(grammar::more_parameters(src@, i as int), i as int),
        decreases src@.len() - end,
    {
        let comma = src.scan(end, CharClass::Blank);
        if !src.is_at(comma, ',') {
            assert(views(out@) + Seq::<NodeView>::empty() =~= views(out@));
            break ;
        }
        let at = src.scan(comma + 1, CharClass::Blank);
        match parameter(src, at) {
            Some(p) => {
                proof {
                    let rest = grammar::more_parameters(src@, p.end as int);
                    lemma_views_push(out@, p);
                    assert(views(out@).push(p@) + rest =~= views(out@) + (seq![p@] + rest));
                    lemma_end_after_add(seq![p@], rest, end as int);
                }
                end = p.end;
                out.push(p);
            },
            None => {
                assert(views(out@) + Seq::<NodeView>::empty() =~= views(out@));
                break ;
            },
        }
    }
    end
}

fn method_parameter(src: &Source, i: usize) -> (r: Option<Node>)
    ensures
        is_match(r, grammar::method_parameter(src@, i as int)),
        r matches Some(n) ==> i < n.end <= src@.len(),
{
    match parameter(src, i) {
        Some(first) => {
            let after_first = first.end;
            let mut children: Vec<Node> = Vec::new();
            children.push(first);
            assert(views(children@) =~= seq![first@]);
            let end = more_parameters(src, after_first, &mut children);
            Some(make(src, Rule::MethodParameter, i, end, children))
        },
        None => None,
    }
}

/// Matches the tail of a method at `i` and gives `prefix` with the tail's
/// nodes appended, and the position after them.
fn method_tail(src: &Source, i: usize, prefix: Vec<Node>) -> (r: Option<(Vec<Node>, usize)>)
    ensures
        match (r, grammar::method_tail(src@, i as int)) {
            (Some((nodes, at)), Some((models, position))) => views(nodes@) == views(prefix@)
                + models && at == position,
            (None, None) => true,
            _ => false,
        },
        r matches Some((nodes, at)) ==> i < at <= src@.len(),
{
    let mut children = prefix;
    match name(src, Rule::MethodIdentifier, i) {
        Some(n) => {
            let open = src.scan(n.end, CharClass::Blank);
            if !src.is_at(open, '(') {
                return None;
            }
            let at = src.scan(open + 1, CharClass::Blank);
            let ghost name_model = n@;
            children.push(n);
            let mut before_close = at;
            let ghost params = crate::tree::optional(grammar::method_parameter(src@, at as int));
            match method_parameter(src, at) {
                Some(p) => {
                    before_close = p.end;
                    children.push(p);
                },
                None => {},
            }
            let close = src.scan(before_close, CharClass::Blank);
            if !src.is_at(close, ')') {
                return None;
            }
            let back = src.scan(close + 1, CharClass::Blank);
            let mut end = close + 1;
            let ghost ret = crate::tree::optional(grammar::class_identifier(src@, back as int));
            match class_identifier(src, back) {
                Some(t) => {
                    end = t.end;
                    children.push(t);
                },
                None => {},
            }
            assert(views(children@) =~= views(prefix@) + (seq![name_model] + params + ret));
            Some((children, end))
        },
        None => None,
    }
}

fn typed_method(src: &Source, i: usize) -> (r: Option<Node>)
    ensures
        is_match(r, grammar::typed_method(src@, i as int)),
        r matches Some(n) ==> i < n.end <= src@.len(),
{
    match typed(src, i) {
        Some((t, k)) => {
            let mut prefix: Vec<Node> = Vec::new();
            prefix.push(t);
            assert(views(prefix@) =~= seq![t@]);
            match method_tail(src, k, prefix) {
                Some((children, end)) => Some(make(src, Rule::ClassMethodDecl, i, end, children)),
                None => None,
            }
        },
        None => None,
    }
}

fn bare_method(src: &Source, i: usize) -> (r: Option<Node>)
    ensures
        is_match(r, grammar::bare_method(src@, i as int)),
        r matches Some(n) ==> i < n.end <= src@.len(),
{
    let prefix: Vec<Node> = Vec::new();
    assert(views(prefix@) =~= Seq::<NodeView>::empty());
    match method_tail(src, i, prefix) {
        Some((children, end)) => {
            assert(Seq::<NodeView>::empty() + grammar::method_tail(src@, i as int).unwrap().0
                =~= grammar::method_tail(src@, i as int).unwrap().0);
            Some(make(src, Rule::ClassMethodDecl, i, end, children))
        },
        None => None,
    }
}

fn class_method_decl(src: &Source, i: usize) -> (r: Option<Node>)
    ensures
        is_match(r, grammar::class_method_decl(src@, i as int)),
        r matches Some(n) ==> i < n.end <= src@.len(),
{
    match typed_method(src, i) {
        Some(n) => Some(n),
        None => bare_method(src, i),
    }
}

fn member_body(src: &Source, i: usize, shape: BodyShape) -> (r: Option<Node>)
    ensures
        is_match(r, grammar::member_body(src@, i as int, shape)),
        r matches Some(n) ==> i < n.end <= src@.len(),
{
    match shape {
        BodyShape::Any => match class_method_decl(src, i) {
            Some(n) => Some(n),
            None => class_property_decl(src, i),
        },
        BodyShape::Attribute => class_property_decl(src, i),
        BodyShape::Method => class_method_decl(src, i),
    }
}

fn member_decl(src: &Source, i: usize, shape: BodyShape) -> (r: Option<Node>)
    requires
        i <= src@.len(),
    ensures
        is_match(r, grammar::member_decl(src@, i as int, shape)),
        r matches Some(n) ==> i < n.end <= src@.len(),
{
    let mut children: Vec<Node> = Vec::new();
    let mut at = i;
    assert(views(children@) =~= Seq::<NodeView>::empty());
    match visibility(src, i) {
        Some(v) => {
            at = v.end;
            children.push(v);
        },
        None => {},
    }
    let ghost marker = crate::tree::optional(grammar::visibility(src@, i as int));
    assert(views(children@) =~= marker);
    let at = classifiers(src, at, &mut children);
    let ghost leading = grammar::classifiers(src@, end_after(marker, i as int));
    match member_body(src, at, shape) {
        Some(body) => {
            let after_body = body.end;
            let ghost body_model = body@;
            children.push(body);
            assert(views(children@) =~= marker + leading + seq![body_model]);
            let end = classifiers(src, after_body, &mut children);
            Some(make(src, Rule::MemberDecl, i, end, children))
        },
        None => None,
    }
}

fn member_stmt(src: &Source, i: usize, shape: BodyShape) -> (r: Option<Node>)
    ensures
        is_match(r, grammar::member_stmt(src@, i as int, shape)),
        r matches Some(n) ==> i < n.end <= src@.len(),
{
    match class_identifier(src, i) {
        Some(target) => {
            let colon = src.scan(target.end, CharClass::Blank);
            if !src.is_at(colon, ':') {
                return None;
            }
            match member_decl(src, src.scan(colon + 1, CharClass::Blank), shape) {
                Some(decl) => {
                    let end = decl.end;
                    let mut children: Vec<Node> = Vec::new();
                    children.push(target);
                    children.push(decl);
                    assert(views(children@) =~= seq![target@, decl@]);
                    Some(make(src, Rule::MemberStmt, i, end, children))
                },
                None => None,
            }
        },
        None => None,
    }
}

/// The position after the quoted string that opens at `i`.
fn quoted(src: &Source, i: usize) -> (r: Option<usize>)
    ensures
        match (r, grammar::quoted(src@, i as int)) {
            (Some(end), Some(position)) => end == position,
            (None, None) => true,
            _ => false,
        },
        r matches Some(end) ==> i < end <= src@.len(),
{
    if !src.is_at(i, '"') {
        return None;
    }
    let close = src.scan(i + 1, CharClass::QuotedText);
    if src.is_at(close, '"') {
        Some(close + 1)
    } else {
        None
    }
}

fn generic(src: &Source, i: usize) -> (r: Option<Node>)
    ensures
        is_match(r, grammar::generic(src@, i as int)),
        r matches Some(n) ==> i < n.end <= src@.len(),
{
    if !src.is_at(i, '~') {
        return None;
    }
    let close = src.scan(i + 1, CharClass::GenericText);
    if close > i + 1 && src.is_at(close, '~') {
        Some(make_leaf(src, Rule::Generic, i, close + 1))
    } else {
        None
    }
}

fn label(src: &Source, i: usize) -> (r: Option<Node>)
    ensures
        is_match(r, grammar::label(src@, i as int)),
        r matches Some(n) ==> i < n.end <= src@.len(),
{
    if !src.is_at(i, '[') {
        return None;
    }
    match quoted(src, i + 1) {
        Some(close) => if src.is_at(close, ']') {
            Some(make_leaf(src, Rule::Label, i, close + 1))
        } else {
            None
        },
        None => None,
    }
}

fn annotation(src: &Source, i: usize) -> (r: Option<Node>)
    ensures
        is_match(r, grammar::annotation(src@, i as int)),
        r matches Some(n) ==> i < n.end <= src@.len(),
{
    if !src.word_at(i, "<<") {
        return None;
    }
    let inside = i + "<<".unicode_len();
    let close = src.scan(inside, CharClass::AnnotationText);
    if close > inside && src.word_at(close, ">>") {
        Some(make_leaf(src, Rule::Annotation, i, close + ">>".unicode_len()))
    } else {
        None
    }
}

/// The identifier of the class declaration that opens at `i`.
fn class_head(src: &Source, i: usize) -> (r: Option<Node>)
    ensures
        is_match(r, grammar::class_head(src@, i as int)),
        r matches Some(n) ==> i < n.end <= src@.len(),
{
    if !src.word_at(i, "class") {
        return None;
    }
    let after = i + "class".unicode_len();
    let at = src.scan(after, CharClass::Blank);
    if at > after {
        class_identifier(src, at)
    } else {
        None
    }
}

fn class_explicit(src: &Source, i: usize) -> (r: Option<Node>)
    ensures
        is_match(r, grammar::class_explicit(src@, i as int)),
        r matches Some(n) ==> i < n.end <= src@.len(),
{
    match class_head(src, i) {
        Some(id) => {
            let end = id.end;
            let mut children: Vec<Node> = Vec::new();
            children.push(id);
            assert(views(children@) =~= seq![id@]);
            Some(make(src, Rule::Class, i, end, children))
        },
        None => None,
    }
}

fn class_labels(src: &Source, i: usize) -> (r: Option<Node>)
    ensures
        is_match(r, grammar::class_labels(src@, i as int)),
        r matches Some(n) ==> i < n.end <= src@.len(),
{
    match class_head(src, i) {
        Some(id) => match label(src, src.scan(id.end, CharClass::Blank)) {
            Some(l) => {
                let end = l.end;
                let mut children: Vec<Node> = Vec::new();
                children.push(id);
                children.push(l);
                assert(views(children@) =~= seq![id@, l@]);
                Some(make(src, Rule::Class, i, end, children))
            },
            None => None,
        },
        None => None,
    }
}

fn class(src: &Source, i: usize) -> (r: Option<Node>)
    ensures
        is_match(r, grammar::class(src@, i as int)),
        r matches Some(n) ==> i < n.end <= src@.len(),
{
    match class_head(src, i) {
        Some(id) => {
            let mut end = id.end;
            let ghost id_model = id@;
            let ghost suffix = crate::tree::optional(grammar::generic(src@, end as int));
            let mut children: Vec<Node> = Vec::new();
            children.push(id);
            match generic(src, end) {
                Some(g) => {
                    end = g.end;
                    children.push(g);
                },
                None => {},
            }
            let ghost tag = crate::tree::optional(
                grammar::label(src@, crate::text::scan(src@, end as int, CharClass::Blank)),
            );
            match label(src, src.scan(end, CharClass::Blank)) {
                Some(l) => {
                    end = l.end;
                    children.push(l);
                },
                None => {},
            }
            let ghost note = crate::tree::optional(
                grammar::annotation(src@, crate::text::scan(src@, end as int, CharClass::Blank)),
            );
            match annotation(src, src.scan(end, CharClass::Blank)) {
                Some(a) => {
                    end = a.end;
                    children.push(a);
                },
                None => {},
            }
            assert(views(children@) =~= seq![id_model] + suffix + tag + note);
            Some(make(src, Rule::Class, i, end, children))
        },
        None => None,
    }
}

fn arrow(src: &Source, i: usize) -> (r: Option<Node>)
    ensures
        is_match(r, grammar::arrow(src@, i as int)),
        r matches Some(n) ==> i <= n.end <= src@.len(),
{
    if let Some(n) = token(src, Rule::Aggregation, i, "o--") {
        return Some(n);
    }
    if let Some(n) = token(src, Rule::Composition, i, "*--") {
        return Some(n);
    }
    if let Some(n) = token(src, Rule::Inheritance, i, "<|--") {
        return Some(n);
    }
    if let Some(n) = token(src, Rule::Realization, i, "<|..") {
        return Some(n);
    }
    if let Some(n) = token(src, Rule::Dependency, i, "<..") {
        return Some(n);
    }
    if let Some(n) = token(src, Rule::Association, i, "<--") {
        return Some(n);
    }
    token(src, Rule::Link, i, "--")
}

fn relation_stmt(src: &Source, i: usize) -> (r: Option<Node>)
    ensures
        is_match(r, grammar::relation_stmt(src@, i as int)),
        r matches Some(n) ==> i < n.end <= src@.len(),
{
    match class_identifier(src, i) {
        Some(from) => match arrow(src, src.scan(from.end, CharClass::Blank)) {
            Some(a) => match class_identifier(src, src.scan(a.end, CharClass::Blank)) {
                Some(to) => {
                    let end = to.end;
                    let mut children: Vec<Node> = Vec::new();
                    children.push(from);
                    children.push(a);
                    children.push(to);
                    assert(views(children@) =~= seq![from@, a@, to@]);
                    Some(make(src, Rule::RelationStmt, i, end, children))
                },
                None => None,
            },
            None => None,
        },
        None => None,
    }
}

fn comment(src: &Source, i: usize) -> (r: Option<Node>)
    ensures
        is_match(r, grammar::comment(src@, i as int)),
        r matches Some(n) ==> i < n.end <= src@.len(),
{
    if src.word_at(i, "%%") {
        proof {
            reveal_strlit("%%");
        }
        let end = src.scan(i + "%%".unicode_len(), CharClass::LineText);
        Some(make_leaf(src, Rule::Comment, i, end))
    } else {
        None
    }
}

fn note(src: &Source, i: usize) -> (r: Option<Node>)
    ensures
        is_match(r, grammar::note(src@, i as int)),
        r matches Some(n) ==> i < n.end <= src@.len(),
{
    if !src.word_at(i, "note") {
        return None;
    }
    let after = i + "note".unicode_len();
    let at = src.scan(after, CharClass::Blank);
    if at <= after {
        return None;
    }
    match quoted(src, at) {
        Some(end) => Some(make_leaf(src, Rule::Note, i, end)),
        None => None,
    }
}

fn end_of_line(src: &Source, i: usize) -> (r: Option<Node>)
    ensures
        is_match(r, grammar::end_of_line(src@, i as int)),
{
    if src.is_at(i, '\r') && src.is_at(i + 1, '\n') {
        Some(make_leaf(src, Rule::EndOfLine, i, i + 2))
    } else if src.is_at(i, '\n') || src.is_at(i, '\r') {
        Some(make_leaf(src, Rule::EndOfLine, i, i + 1))
    } else {
        None
    }
}

fn end_of_input(src: &Source, i: usize) -> (r: Option<Node>)
    ensures
        is_match(r, grammar::end_of_input(src@, i as int)),
{
    if i == src.len() {
        Some(make_leaf(src, Rule::EndOfInput, i, i))
    } else {
        None
    }
}

fn statement(src: &Source, i: usize) -> (r: Option<Node>)
    ensures
        is_match(r, grammar::statement(src@, i as int)),
        r matches Some(n) ==> i < n.end <= src@.len(),
{
    if let Some(n) = class(src, i) {
        return Some(n);
    }
    if let Some(n) = member_stmt(src, i, BodyShape::Any) {
        return Some(n);
    }
    if let Some(n) = relation_stmt(src, i) {
        return Some(n);
    }
    if let Some(n) = comment(src, i) {
        return Some(n);
    }
    note(src, i)
}

/// The one symbol `rule`, as what was expected.
fn only(rule: Rule) -> (expected: Vec<Rule>)
    ensures
        expected@ == seq![rule],
{
    let expected = vec![rule];
    assert(expected@ =~= seq![rule]);
    expected
}

/// The symbols that a statement may open with, as what was expected.
fn any_statement() -> (expected: Vec<Rule>)
    ensures
        expected@ == grammar::statement_rules(),
{
    let expected = vec![
        Rule::Class,
        Rule::MemberStmt,
        Rule::RelationStmt,
        Rule::Comment,
        Rule::Note,
    ];
    assert(expected@ =~= grammar::statement_rules());
    expected
}

/// The syntax error for a stop at position `position`.
fn fail(src: &Source, position: usize, expected: Vec<Rule>) -> (error: SyntaxError)
    requires
        position <= src@.len(),
    ensures
        error@ == located(src@, Failure { position: position as int, expected: expected@ }),
{
    let (line, column) = src.locate(position);
    SyntaxError { position, byte: src.byte_offset(position), line, column, expected }
}

/// Whether a line may end at `i`; with it, the position of what stands
/// there instead.
fn line_ends(src: &Source, i: usize) -> (r: (bool, usize))
    requires
        i <= src@.len(),
    ensures
        r.0 == grammar::line_ends(src@, i as int),
        r.1 == crate::text::scan(src@, i as int, CharClass::Blank),
        i <= r.1 <= src@.len(),
{
    let j = src.scan(i, CharClass::Blank);
    if j >= src.len() {
        (true, j)
    } else {
        let c = src.at(j);
        (c == '\n' || c == '\r', j)
    }
}

/// Whether the statements gathered so far, followed by the outcome for the
/// rest of the text, make up `whole`.
spec fn continues(
    gathered: Seq<NodeView>,
    rest: Result<Seq<NodeView>, Failure>,
    whole: Result<Seq<NodeView>, Failure>,
) -> bool {
    match rest {
        Ok(nodes) => whole == Ok::<Seq<NodeView>, Failure>(gathered + nodes),
        Err(failure) => whole == Err::<Seq<NodeView>, Failure>(failure),
    }
}

fn statements(src: &Source, i: usize) -> (r: Result<Vec<Node>, SyntaxError>)
    requires
        i <= src@.len(),
    ensures
        match (r, grammar::statements(src@, i as int)) {
            (Ok(nodes), Ok(models)) => views(nodes@) == models,
            (Err(error), Err(failure)) => error@ == located(src@, failure),
            _ => false,
        },
{
    let mut nodes: Vec<Node> = Vec::new();
    let mut at = i;
    assert(views(nodes@) =~= Seq::<NodeView>::empty());
    proof {
        match grammar::statements(src@, i as int) {
            Ok(all) => {
                assert(Seq::<NodeView>::empty() + all =~= all);
            },
            Err(_) => {},
        }
    }
    loop
        invariant
            i <= at <= src@.len(),
            continues(
                views(nodes@),
                grammar::statements(src@, at as int),
                grammar::statements(src@, i as int),
            ),
        decreases src@.len() - at,
    {
        let start = src.scan(at, CharClass::Layout);
        if start >= src.len() {
            assert(views(nodes@) + Seq::<NodeView>::empty() =~= views(nodes@));
            return Ok(nodes);
        }
        match statement(src, start) {
            Some(n) => {
                let (ends, stop) = line_ends(src, n.end);
                if !ends {
                    return Err(fail(src, stop, only(Rule::EndOfLine)));
                }
                proof {
                    lemma_views_push(nodes@, n);
                    match grammar::statements(src@, n.end as int) {
                        Ok(rest) => {
                            assert(views(nodes@).push(n@) + rest =~= views(nodes@) + (seq![n@]
                                + rest));
                        },
                        Err(_) => {},
                    }
                }
                at = n.end;
                nodes.push(n);
            },
            None => {
                return Err(fail(src, start, any_statement()));
            },
        }
    }
}

fn document(src: &Source) -> (r: Result<Node, SyntaxError>)
    ensures
        is_outcome(r, parse_tree(Rule::Diagram, src@)),
{
    let at = src.scan(0, CharClass::Layout);
    if !src.word_at(at, "classDiagram") {
        return Err(fail(src, at, only(Rule::Header)));
    }
    let after = at + "classDiagram".unicode_len();
    let (ends, stop) = line_ends(src, after);
    if !ends {
        return Err(fail(src, stop, only(Rule::EndOfLine)));
    }
    match statements(src, after) {
        Ok(nodes) => Ok(make(src, Rule::Diagram, 0, src.len(), nodes)),
        Err(error) => Err(error),
    }
}

fn fragment(src: &Source, rule: Rule, i: usize) -> (r: Option<Node>)
    requires
        i <= src@.len(),
    ensures
        is_match(r, grammar::fragment(rule, src@, i as int)),
        r matches Some(n) ==> i <= n.end <= src@.len(),
{
    match rule {
        Rule::Diagram => None,
        Rule::Header => token(src, Rule::Header, i, "classDiagram"),
        Rule::Class => class(src, i),
        Rule::ClassExplicit => class_explicit(src, i),
        Rule::ClassLabels => class_labels(src, i),
        Rule::ClassIdentifier => class_identifier(src, i),
        Rule::Generic => generic(src, i),
        Rule::Label => label(src, i),
        Rule::Annotation => annotation(src, i),
        Rule::MemberStmt => member_stmt(src, i, BodyShape::Any),
        Rule::ClassProperty => member_stmt(src, i, BodyShape::Attribute),
        Rule::ClassMethod => member_stmt(src, i, BodyShape::Method),
        Rule::MemberDecl => member_decl(src, i, BodyShape::Any),
        Rule::Visibility => visibility(src, i),
        Rule::Classifier => classifier(src, i),
        Rule::ClassPropertyDecl => class_property_decl(src, i),
        Rule::ClassMethodDecl => class_method_decl(src, i),
        Rule::VariableIdentifier => name(src, Rule::VariableIdentifier, i),
        Rule::MethodIdentifier => name(src, Rule::MethodIdentifier, i),
        Rule::MethodParameter => method_parameter(src, i),
        Rule::Parameter => parameter(src, i),
        Rule::RelationStmt => relation_stmt(src, i),
        Rule::Aggregation => token(src, Rule::Aggregation, i, "o--"),
        Rule::Composition => token(src, Rule::Composition, i, "*--"),
        Rule::Inheritance => token(src, Rule::Inheritance, i, "<|--"),
        Rule::Dependency => token(src, Rule::Dependency, i, "<.."),
        Rule::Realization => token(src, Rule::Realization, i, "<|.."),
        Rule::Link => token(src, Rule::Link, i, "--"),
        Rule::Association => token(src, Rule::Association, i, "<--"),
        Rule::Comment => comment(src, i),
        Rule::Note => note(src, i),
        Rule::EndOfLine => end_of_line(src, i),
        Rule::EndOfInput => end_of_input(src, i),
    }
}

/// The recogniser of class-diagram documents.
pub struct MermaidParser;

impl MermaidParser {
    /// Matches the whole of `input` against `rule`.
    ///
    /// Gives the match tree where `input` matches, and otherwise the syntax
    /// error that says where matching stopped: for a document, the place
    /// that [`grammar::document`] names; for any other rule, the start of
    /// `input` where the rule does not match there, and the end of the match
    /// where `input` goes on after it.
    pub fn parse(rule: Rule, input: &str) -> (r: Result<Node, SyntaxError>)
        ensures
            is_outcome(r, parse_tree(rule, input@)),
    {
        let src = Source::new(input);
        match rule {
            Rule::Diagram => document(&src),
            _ => match fragment(&src, rule, 0) {
                Some(n) => if n.end == src.len() {
                    Ok(n)
                } else {
                    let stop = n.end;
                    Err(fail(&src, stop, only(Rule::EndOfInput)))
                },
                None => Err(fail(&src, 0, only(rule))),
            },
        }
    }
}

} // verus!
