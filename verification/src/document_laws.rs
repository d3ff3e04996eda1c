//! What holds of every document: laws that relate the text of a document to
//! the diagram that parsing it gives.

use vstd::prelude::*;
use crate::grammar::{
    class, class_head, class_identifier, line_ends, statement, statements, Failure,
};
use crate::parser::{
    apply, assemble, class_members, collect, collect_first, last_delimiter, parse_outcome, split,
    Collected, ParseErrorView, StmtView,
};
use crate::recognizer::{parse_tree, SyntaxErrorView};
use crate::text::{
    in_class, is_blank, is_ident_start, lemma_scan_bounds, lemma_scan_run, lemma_scan_stops,
    lemma_word_at, scan, word_at, CharClass,
};
use crate::tree::{branch, last_text, leaf, NodeView, Rule};
use crate::types::{ClassView, DiagramView, MemberView, NamespaceView};

verus! {

/// Whether `x` is an identifier of a class: a letter or an underscore, then
/// letters, digits, underscores and hyphens.
pub open spec fn is_identifier(x: Seq<char>) -> bool {
    &&& x.len() > 0
    &&& is_ident_start(x[0])
    &&& forall|k: int| 1 <= k < x.len() ==> in_class(CharClass::IdentTail, #[trigger] x[k])
}

/// The node of a class identifier holds an identifier, and it is the text
/// from its start to its end.
pub proof fn identifier_node_is_well_formed(s: Seq<char>, i: int)
    ensures
        class_identifier(s, i) matches Some(n) ==> is_identifier(n.text) && n.text == s.subrange(
            i,
            n.end,
        ) && i < n.end <= s.len(),
{
    if let Some(n) = class_identifier(s, i) {
        lemma_scan_bounds(s, i + 1, CharClass::IdentTail);
        lemma_scan_run(s, i + 1, CharClass::IdentTail);
        assert(n.text[0] == s[i]);
        assert forall|k: int| 1 <= k < n.text.len() implies in_class(
            CharClass::IdentTail,
            #[trigger] n.text[k],
        ) by {
            assert(n.text[k] == s[i + k]);
        }
    }
}

/// The class declaration of the keyword, one space and the text `x`, taken
/// as a whole input, is accepted exactly where `x` is an identifier; where
/// it is not, the outcome is a syntax error. The tree of an accepted
/// declaration holds `x` as the identifier of the class.
///
/// The text `x` does not begin with a blank: blanks after the keyword are
/// skipped, so they are no part of the name.
pub proof fn class_declaration_names_an_identifier(x: Seq<char>)
    requires
        x.len() > 0 ==> !is_blank(x[0]),
    ensures
        parse_tree(Rule::ClassExplicit, "class "@ + x) is Ok <==> is_identifier(x),
        is_identifier(x) ==> parse_tree(Rule::ClassExplicit, "class "@ + x) == Ok::<
            NodeView,
            SyntaxErrorView,
        >(
            branch(
                Rule::Class,
                "class "@ + x,
                0,
                6 + x.len() as int,
                seq![leaf(Rule::ClassIdentifier, "class "@ + x, 6, 6 + x.len() as int)],
            ),
        ),
        is_identifier(x) ==> leaf(Rule::ClassIdentifier, "class "@ + x, 6, 6 + x.len() as int).text == x,
{
    let s = "class "@ + x;
    reveal_strlit("class ");
    reveal_strlit("class");
    assert(s.len() == 6 + x.len());
    assert forall|k: int| 0 <= k < 6 implies s[k] == "class "@[k] by {}
    assert forall|k: int| 0 <= k < x.len() implies s[6 + k] == x[k] by {}
    lemma_word_at(s, 0, "class"@);
    assert(word_at(s, 0, "class"@));
    assert(is_blank(s[5]));
    lemma_scan_stops(s, 5, 6, CharClass::Blank);
    assert(class_head(s, 0) == class_identifier(s, 6));
    if x.len() > 0 && is_ident_start(x[0]) {
        let end = scan(s, 7, CharClass::IdentTail);
        lemma_scan_bounds(s, 7, CharClass::IdentTail);
        lemma_scan_run(s, 7, CharClass::IdentTail);
        if is_identifier(x) {
            assert forall|p: int| 7 <= p < s.len() implies in_class(
                CharClass::IdentTail,
                #[trigger] s[p],
            ) by {
                assert(s[p] == x[p - 6]);
            }
            lemma_scan_stops(s, 7, s.len() as int, CharClass::IdentTail);
            assert(s.subrange(6, 6 + x.len() as int) =~= x);
        } else {
            let k = choose|k: int| 1 <= k < x.len() && !in_class(CharClass::IdentTail, x[k]);
            assert(s[6 + k] == x[k]);
            assert(end <= 6 + k);
        }
    }
}

/// The line that declares the class called `name`.
pub open spec fn class_line(name: Seq<char>) -> Seq<char> {
    "class "@ + name + "\n"@
}

/// The lines that declare the classes called `names`, in order.
pub open spec fn class_lines(names: Seq<Seq<char>>) -> Seq<char>
    decreases names.len(),
{
    if names.len() == 0 {
        Seq::empty()
    } else {
        class_line(names.first()) + class_lines(names.drop_first())
    }
}

/// The document that declares the classes called `names` and nothing else.
pub open spec fn class_document(names: Seq<Seq<char>>) -> Seq<char> {
    "classDiagram\n"@ + class_lines(names)
}

/// The class called `name` as its bare declaration gives it: in the default
/// namespace, without members.
pub open spec fn simple_class(name: Seq<char>) -> ClassView {
    ClassView {
        name,
        generic: None,
        annotations: Seq::empty(),
        members: Seq::empty(),
        namespace: Seq::empty(),
    }
}

/// The statements that declare the classes called `names`.
pub open spec fn class_statements(names: Seq<Seq<char>>) -> Seq<StmtView> {
    names.map_values(|name: Seq<char>| StmtView::Class(simple_class(name)))
}

/// Whether `node` is the node of a bare declaration of the class `name`.
pub open spec fn is_declaration(node: NodeView, name: Seq<char>) -> bool {
    &&& node.rule == Rule::Class
    &&& node.children.len() == 1
    &&& node.children[0].rule == Rule::ClassIdentifier
    &&& node.children[0].text == name
}

/// The node that a bare declaration at position `i` gives for a name of `n`
/// characters.
pub open spec fn declared(s: Seq<char>, i: int, n: int) -> NodeView {
    branch(Rule::Class, s, i, i + 6 + n, seq![leaf(Rule::ClassIdentifier, s, i + 6, i + 6 + n)])
}

/// A line that declares a class is matched as a class declaration that ends
/// before the line feed.
proof fn lemma_class_line(s: Seq<char>, i: int, name: Seq<char>)
    requires
        is_identifier(name),
        word_at(s, i, class_line(name)),
    ensures
        statement(s, i) == Some(declared(s, i, name.len() as int)),
        is_declaration(declared(s, i, name.len() as int), name),
        line_ends(s, i + 6 + name.len()),
        !in_class(CharClass::Layout, s[i]),
        scan(s, i + 6 + name.len(), CharClass::Layout) == scan(
            s,
            i + 7 + name.len(),
            CharClass::Layout,
        ),
{
    let n = name.len() as int;
    let line = class_line(name);
    let end = i + 6 + n;
    reveal_strlit("class ");
    reveal_strlit("class");
    reveal_strlit("\n");
    reveal_strlit("<<");
    assert(line.len() == 7 + n);
    lemma_word_at(s, i, line);
    assert(s[i] == 'c' && s[i + 1] == 'l' && s[i + 2] == 'a' && s[i + 3] == 's' && s[i + 4] == 's'
        && s[i + 5] == ' ') by {
        assert(line[0] == 'c' && line[1] == 'l' && line[2] == 'a' && line[3] == 's' && line[4]
            == 's' && line[5] == ' ');
    }
    assert forall|k: int| 0 <= k < n implies s[i + 6 + k] == name[k] by {
        assert(line[6 + k] == name[k]);
    }
    assert(s[end] == '\n') by {
        assert(line[6 + n] == '\n');
    }
    lemma_word_at(s, i, "class"@);
    assert(word_at(s, i, "class"@));
    assert(s[i + 6] == name[0]);
    lemma_scan_stops(s, i + 5, i + 6, CharClass::Blank);
    assert forall|p: int| i + 7 <= p < end implies in_class(CharClass::IdentTail, #[trigger] s[p]) by {
        assert(s[p] == name[p - i - 6]);
    }
    lemma_scan_stops(s, i + 7, end, CharClass::IdentTail);
    let id = leaf(Rule::ClassIdentifier, s, i + 6, end);
    assert(class_head(s, i) == Some(id));
    assert(id.text =~= name);
    lemma_word_at(s, end, "<<"@);
    assert("<<"@[0] == '<');
    assert(!word_at(s, end, "<<"@));
    assert(class(s, i).unwrap().children =~= seq![id]);
    assert(s[i] == 'c');
}

/// The lines that declare classes are matched as so many class
/// declarations, each the bare declaration of its class.
proof fn lemma_class_lines(s: Seq<char>, i: int, names: Seq<Seq<char>>)
    requires
        0 <= i <= s.len(),
        s.subrange(i, s.len() as int) == class_lines(names),
        forall|k: int| 0 <= k < names.len() ==> is_identifier(#[trigger] names[k]),
    ensures
        statements(s, i) matches Ok(nodes) && nodes.len() == names.len() && forall|k: int|
            0 <= k < names.len() ==> is_declaration(#[trigger] nodes[k], names[k]),
    decreases names.len(),
{
    let rest_text = s.subrange(i, s.len() as int);
    if names.len() == 0 {
        assert(rest_text.len() == 0);
        assert(scan(s, i, CharClass::Layout) == i);
    } else {
        let name = names.first();
        let rest = names.drop_first();
        let line = class_line(name);
        let next = i + line.len();
        reveal_strlit("class ");
        reveal_strlit("\n");
        assert(line.len() == 7 + name.len());
        assert(rest_text.len() == line.len() + class_lines(rest).len());
        assert(s.subrange(i, next) =~= line) by {
            assert forall|k: int| 0 <= k < line.len() implies s.subrange(i, next)[k] == line[k] by {
                assert(rest_text[k] == s[i + k]);
            }
        }
        assert(s.subrange(next, s.len() as int) =~= class_lines(rest)) by {
            assert forall|k: int| 0 <= k < class_lines(rest).len() implies s.subrange(
                next,
                s.len() as int,
            )[k] == class_lines(rest)[k] by {
                assert(rest_text[line.len() + k] == s[next + k]);
            }
        }
        lemma_class_line(s, i, name);
        let node = declared(s, i, name.len() as int);
        assert(scan(s, i, CharClass::Layout) == i);
        assert forall|k: int| 0 <= k < rest.len() implies is_identifier(#[trigger] rest[k]) by {
            assert(rest[k] == names[k + 1]);
        }
        lemma_class_lines(s, next, rest);
        assert(statements(s, node.end) == statements(s, next)) by {
            assert(scan(s, node.end, CharClass::Layout) == scan(s, next, CharClass::Layout));
        }
        let tail = statements(s, next)->Ok_0;
        assert(statements(s, i) == Ok::<Seq<NodeView>, Failure>(seq![node] + tail));
        let nodes = seq![node] + tail;
        assert forall|k: int| 0 <= k < names.len() implies is_declaration(
            #[trigger] nodes[k],
            names[k],
        ) by {
            if k > 0 {
                assert(nodes[k] == tail[k - 1]);
                assert(names[k] == rest[k - 1]);
            }
        }
    }
}

/// An identifier holds no namespace delimiter: it names a class of the
/// default namespace.
pub proof fn identifier_is_unqualified(name: Seq<char>)
    requires
        is_identifier(name),
    ensures
        split(name) == (Seq::<char>::empty(), name),
{
    lemma_no_delimiter(name, name.len() as int);
}

/// No delimiter stands among the first `n` characters of an identifier.
proof fn lemma_no_delimiter(name: Seq<char>, n: int)
    requires
        is_identifier(name),
        0 <= n <= name.len(),
    ensures
        last_delimiter(name, n) is None,
    decreases n,
{
    if n >= 2 {
        assert(in_class(CharClass::IdentTail, name[n - 1]));
        lemma_no_delimiter(name, n - 1);
    }
}

/// The node of a bare declaration gives the statement of its class.
proof fn lemma_declaration_statement(node: NodeView, name: Seq<char>)
    requires
        is_declaration(node, name),
        is_identifier(name),
    ensures
        collect(node) == (Collected {
            statements: seq![StmtView::Class(simple_class(name))],
            error: None,
        }),
{
    identifier_is_unqualified(name);
    assert(node.children.drop_last() =~= Seq::<NodeView>::empty());
    assert(class_members(node.children) == Ok::<Seq<MemberView>, ParseErrorView>(Seq::empty())) by {
        reveal_with_fuel(class_members, 2);
    }
    assert(last_text(node.children, Rule::ClassIdentifier) == Some(name));
}

/// The children of a tree that are bare declarations give the statements
/// of their classes, in order.
proof fn lemma_collect_declarations(t: NodeView, names: Seq<Seq<char>>, n: nat)
    requires
        t.children.len() == names.len(),
        n <= names.len(),
        forall|k: int| 0 <= k < names.len() ==> is_declaration(#[trigger] t.children[k], names[k]),
        forall|k: int| 0 <= k < names.len() ==> is_identifier(#[trigger] names[k]),
    ensures
        collect_first(t, n) == (Collected {
            statements: class_statements(names.take(n as int)),
            error: None,
        }),
    decreases n,
{
    if n == 0 {
        assert(class_statements(names.take(0)) =~= Seq::<StmtView>::empty());
    } else {
        lemma_collect_declarations(t, names, (n - 1) as nat);
        lemma_declaration_statement(t.children[n - 1], names[n - 1]);
        assert(class_statements(names.take(n as int)) =~= class_statements(names.take(n - 1))
            + seq![StmtView::Class(simple_class(names[n - 1]))]);
    }
}

/// The diagram that holds the classes called `names`, each as its bare
/// declaration gives it, in the default namespace, and nothing else.
pub open spec fn diagram_of_classes(names: Seq<Seq<char>>) -> DiagramView {
    DiagramView {
        namespaces: if names.len() == 0 {
            Map::empty()
        } else {
            Map::empty().insert(
                Seq::<char>::empty(),
                NamespaceView {
                    name: Seq::empty(),
                    classes: Map::new(
                        |name: Seq<char>| names.contains(name),
                        |name: Seq<char>| simple_class(name),
                    ),
                    children: Seq::empty(),
                },
            )
        },
        relations: Seq::empty(),
    }
}

/// The statements that declare classes of the default namespace build the
/// diagram of exactly those classes.
proof fn lemma_assemble_classes(names: Seq<Seq<char>>)
    requires
        forall|k: int| 0 <= k < names.len() ==> is_identifier(#[trigger] names[k]),
    ensures
        assemble(class_statements(names)) == diagram_of_classes(names),
    decreases names.len(),
{
    if names.len() > 0 {
        let before = names.drop_last();
        let name = names.last();
        lemma_assemble_classes(before);
        identifier_is_unqualified(name);
        assert(class_statements(names).drop_last() =~= class_statements(before));
        let d = diagram_of_classes(before);
        let after = apply(d, StmtView::Class(simple_class(name)));
        let wanted = diagram_of_classes(names);
        let default_ns = Seq::<char>::empty();
        assert forall|k: Seq<char>| names.contains(k) <==> before.contains(k) || k == name by {
            if names.contains(k) {
                let i = choose|i: int| 0 <= i < names.len() && names[i] == k;
                if i < names.len() - 1 {
                    assert(before[i] == k);
                }
            }
            if before.contains(k) {
                let i = choose|i: int| 0 <= i < before.len() && before[i] == k;
                assert(names[i] == k);
            }
            assert(names[names.len() - 1] == name);
        }
        assert(after.namespaces[default_ns].classes =~= wanted.namespaces[default_ns].classes);
        assert(after.namespaces =~= wanted.namespaces);
    }
}

/// Completeness: a document that declares classes by their identifiers,
/// one to a line, and nothing else, gives the diagram that holds exactly
/// those classes, each without members, in the default namespace; where
/// the identifiers are distinct, there are as many classes as lines.
pub proof fn declared_classes_are_complete(names: Seq<Seq<char>>)
    requires
        forall|k: int| 0 <= k < names.len() ==> is_identifier(#[trigger] names[k]),
    ensures
        parse_outcome(class_document(names)) == Ok::<DiagramView, ParseErrorView>(
            diagram_of_classes(names),
        ),
        names.len() > 0 ==> {
            let d = diagram_of_classes(names);
            &&& d.namespaces.dom() == set![Seq::<char>::empty()]
            &&& d.namespaces[Seq::<char>::empty()].classes.dom() == names.to_set()
            &&& names.no_duplicates() ==> d.namespaces[Seq::<char>::empty()].classes.len()
                == names.len()
        },
{
    let s = class_document(names);
    let lines = class_lines(names);
    reveal_strlit("classDiagram\n");
    reveal_strlit("classDiagram");
    assert(s.len() == 13 + lines.len());
    assert(s[0] == 'c' && s[1] == 'l' && s[2] == 'a' && s[3] == 's' && s[4] == 's' && s[5] == 'D'
        && s[6] == 'i' && s[7] == 'a' && s[8] == 'g' && s[9] == 'r' && s[10] == 'a' && s[11]
        == 'm' && s[12] == '\n');
    lemma_word_at(s, 0, "classDiagram"@);
    assert(word_at(s, 0, "classDiagram"@));
    assert(scan(s, 0, CharClass::Layout) == 0);
    assert(scan(s, 12, CharClass::Blank) == 12);
    assert(line_ends(s, 12));
    assert(s.subrange(13, s.len() as int) =~= lines);
    lemma_class_lines(s, 13, names);
    assert(statements(s, 12) == statements(s, 13)) by {
        assert(scan(s, 12, CharClass::Layout) == scan(s, 13, CharClass::Layout));
    }
    let nodes = statements(s, 13)->Ok_0;
    let tree = branch(Rule::Diagram, s, 0, s.len() as int, nodes);
    assert(parse_tree(Rule::Diagram, s) == Ok::<NodeView, SyntaxErrorView>(tree));
    lemma_collect_declarations(tree, names, names.len());
    assert(names.take(names.len() as int) =~= names);
    lemma_assemble_classes(names);
    if names.len() > 0 {
        let d = diagram_of_classes(names);
        let default_ns = Seq::<char>::empty();
        assert(d.namespaces.dom() =~= set![default_ns]);
        assert(d.namespaces[default_ns].classes.dom() =~= names.to_set());
        if names.no_duplicates() {
            names.unique_seq_to_set();
        }
    }
}

} // verus!
