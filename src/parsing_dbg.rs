//! A compact dump of the syntax tree, for troubleshooting.
use vstd::prelude::*;

use crate::formatting::{child_depth, spaces};
use crate::node::{Node, NodeValue, RootNode, Statement, StatementKeyword};
use crate::text::{chars_of, push_char, push_str};

verus! {

/// How a character stands inside a quoted dump string
pub open spec fn escaped_char(c: char) -> Seq<char> {
    if c == '"' {
        seq!['\\', '"']
    } else if c == '\\' {
        seq!['\\', '\\']
    } else if c == '\n' {
        seq!['\\', 'n']
    } else if c == '\r' {
        seq!['\\', 'r']
    } else if c == '\t' {
        seq!['\\', 't']
    } else {
        seq![c]
    }
}

/// The characters of `s` as they stand inside a quoted dump string
pub open spec fn escaped(s: Seq<char>) -> Seq<char>
    decreases s.len(),
{
    if s.len() == 0 {
        Seq::empty()
    } else {
        escaped(s.drop_last()) + escaped_char(s.last())
    }
}

/// One marker, after a space, for each item
pub open spec fn markers(n: int, marker: Seq<char>) -> Seq<char>
    decreases n,
{
    if n <= 0 {
        Seq::empty()
    } else {
        markers(n - 1, marker) + seq![' '] + marker
    }
}

pub open spec fn keyword_dump(k: StatementKeyword) -> Seq<char> {
    match k {
        StatementKeyword::Keyword(t) => "Keyword \""@ + escaped(t@) + seq!['"'],
        StatementKeyword::ExtensionKeyword(t) => "ExtensionKeyword \""@ + escaped(t@) + seq!['"'],
        StatementKeyword::Invalid(t) => "INVALID \""@ + escaped(t@) + seq!['"'],
    }
}

pub open spec fn value_kind(v: NodeValue) -> Seq<char> {
    match v {
        NodeValue::String(_) => "String"@,
        NodeValue::StringConcatenation(_) => "StringConcatenation"@,
        NodeValue::Number(_) => "Number"@,
        NodeValue::Date(_) => "Date"@,
        NodeValue::Other(_) => "Other"@,
    }
}

/// The dump of a statement at `depth`, on a new line
pub open spec fn statement_dump(st: Statement, depth: u16) -> Seq<char>
    decreases st,
{
    seq!['('] + keyword_dump(st.keyword) + markers(st.keyword_comments@.len() as int, "<comment>"@)
        + match st.value {
        Some(v) => seq![' '] + value_kind(v),
        None => Seq::empty(),
    } + markers(st.value_comments@.len() as int, "<comment>"@) + markers(
        st.post_comments@.len() as int,
        "<post-comment>"@,
    ) + match st.children {
        Some(c) => nodes_dump(c@, child_depth(depth)),
        None => Seq::empty(),
    } + seq![')']
}

/// The dump of a node at `depth`, on a new line
pub open spec fn node_dump(node: Node, depth: u16) -> Seq<char>
    decreases node,
{
    seq!['\n'] + spaces(2 * depth) + match node {
        Node::Statement(st) => statement_dump(st, depth),
        Node::EmptyLine(_) => "[EmptyLine]"@,
        Node::Comment(_) => "(comment)"@,
    }
}

/// The dumps of the nodes, one after the other
pub open spec fn nodes_dump(nodes: Seq<Node>, depth: u16) -> Seq<char>
    decreases nodes,
{
    if nodes.len() == 0 {
        Seq::empty()
    } else {
        nodes_dump(nodes.drop_last(), depth) + node_dump(nodes.last(), depth)
    }
}

pub(crate) fn write_escaped(out: &mut String, text: &str)
    ensures
        final(out)@ == old(out)@ + escaped(text@),
{
    let chars = chars_of(text);
    let mut i: usize = 0;
    while i < chars.len()
        invariant
            i <= chars@.len(),
            chars@ == text@,
            out@ == old(out)@ + escaped(chars@.subrange(0, i as int)),
        decreases chars@.len() - i,
    {
        let c = chars[i];
        if c == '"' {
            push_char(out, '\\');
            push_char(out, '"');
        } else if c == '\\' {
            push_char(out, '\\');
            push_char(out, '\\');
        } else if c == '\n' {
            push_char(out, '\\');
            push_char(out, 'n');
        } else if c == '\r' {
            push_char(out, '\\');
            push_char(out, 'r');
        } else if c == '\t' {
            push_char(out, '\\');
            push_char(out, 't');
        } else {
            push_char(out, c);
        }
        proof {
            let part = chars@.subrange(0, i + 1);
            assert(part.drop_last() =~= chars@.subrange(0, i as int));
            assert(out@ =~= old(out)@ + escaped(part));
        }
        i = i + 1;
    }
    proof {
        assert(chars@.subrange(0, chars@.len() as int) =~= chars@);
    }
}

fn write_markers(out: &mut String, n: usize, marker: &str)
    ensures
        final(out)@ == old(out)@ + markers(n as int, marker@),
{
    let mut i: usize = 0;
    while i < n
        invariant
            i <= n,
            out@ == old(out)@ + markers(i as int, marker@),
        decreases n - i,
    {
        push_char(out, ' ');
        push_str(out, marker);
        i = i + 1;
        proof {
            assert(out@ =~= old(out)@ + markers(i as int, marker@));
        }
    }
}

fn write_keyword(out: &mut String, keyword: &StatementKeyword)
    ensures
        final(out)@ == old(out)@ + keyword_dump(*keyword),
{
    let (label, text) = match keyword {
        StatementKeyword::Keyword(t) => ("Keyword \"", t),
        StatementKeyword::ExtensionKeyword(t) => ("ExtensionKeyword \"", t),
        StatementKeyword::Invalid(t) => ("INVALID \"", t),
    };
    push_str(out, label);
    write_escaped(out, text.as_str());
    push_char(out, '"');
    proof {
        assert(out@ =~= old(out)@ + keyword_dump(*keyword));
    }
}

fn value_name(value: &NodeValue) -> (r: &'static str)
    ensures
        r@ == value_kind(*value),
{
    match value {
        NodeValue::String(_) => "String",
        NodeValue::StringConcatenation(_) => "StringConcatenation",
        NodeValue::Number(_) => "Number",
        NodeValue::Date(_) => "Date",
        NodeValue::Other(_) => "Other",
    }
}

fn format_statement(out: &mut String, st: &Statement, depth: u16)
    ensures
        final(out)@ == old(out)@ + statement_dump(*st, depth),
    decreases st,
{
    push_char(out, '(');
    write_keyword(out, &st.keyword);
    write_markers(out, st.keyword_comments.len(), "<comment>");
    let ghost before_value = out@;
    match &st.value {
        Some(v) => {
            push_char(out, ' ');
            push_str(out, value_name(v));
        },
        None => {},
    }
    let ghost after_value = out@;
    write_markers(out, st.value_comments.len(), "<comment>");
    write_markers(out, st.post_comments.len(), "<post-comment>");
    let ghost before_children = out@;
    match &st.children {
        Some(children) => {
            proof {
                assert(decreases_to!(*st => st.children));
                assert(decreases_to!(st.children => *children));
            }
            let next = if depth < u16::MAX {
                depth + 1
            } else {
                depth
            };
            format_nodes(out, children, next);
        },
        None => {},
    }
    let ghost after_children = out@;
    push_char(out, ')');
    proof {
        let v = match &st.value {
            Some(v) => seq![' '] + value_kind(*v),
            None => Seq::<char>::empty(),
        };
        let c = match &st.children {
            Some(c) => nodes_dump(c@, child_depth(depth)),
            None => Seq::<char>::empty(),
        };
        assert(after_value =~= before_value + v);
        assert(after_children =~= before_children + c);
        assert(out@ =~= old(out)@ + statement_dump(*st, depth));
    }
}

fn format_nodes(out: &mut String, nodes: &Vec<Node>, depth: u16)
    ensures
        final(out)@ == old(out)@ + nodes_dump(nodes@, depth),
    decreases nodes,
{
    broadcast use vstd::std_specs::vec::group_vec_axioms;

    let mut i: usize = 0;
    while i < nodes.len()
        invariant
            i <= nodes@.len(),
            out@ == old(out)@ + nodes_dump(nodes@.subrange(0, i as int), depth),
        decreases nodes@.len() - i,
    {
        proof {
            assert(decreases_to!(*nodes => nodes@));
            assert(decreases_to!(nodes@ => nodes@[i as int]));
        }
        format_node(out, &nodes[i], depth);
        proof {
            let part = nodes@.subrange(0, i + 1);
            assert(part.drop_last() =~= nodes@.subrange(0, i as int));
        }
        i = i + 1;
    }
    proof {
        assert(nodes@.subrange(0, nodes@.len() as int) =~= nodes@);
    }
}

/// Dumps a node on a new line, indented two spaces per level
pub fn format_node(out: &mut String, node: &Node, depth: u16)
    ensures
        final(out)@ == old(out)@ + node_dump(*node, depth),
    decreases node,
{
    push_char(out, '\n');
    let mut i: usize = 0;
    let width: usize = 2 * depth as usize;
    while i < width
        invariant
            i <= width,
            width == 2 * depth,
            out@ == old(out)@ + seq!['\n'] + spaces(i as int),
        decreases width - i,
    {
        push_char(out, ' ');
        i = i + 1;
        proof {
            assert(out@ =~= old(out)@ + seq!['\n'] + spaces(i as int));
        }
    }
    let ghost head = out@;
    match node {
        Node::Statement(st) => {
            format_statement(out, st, depth);
        },
        Node::EmptyLine(_) => {
            push_str(out, "[EmptyLine]");
        },
        Node::Comment(_) => {
            push_str(out, "(comment)");
        },
    }
    proof {
        assert(out@ =~= old(out)@ + node_dump(*node, depth));
    }
}

/// Dumps the tree: `(root`, its nodes, `)` and a line break
pub fn format_tree(root: &RootNode) -> (r: String)
    ensures
        r@ == "(root"@ + nodes_dump(root.children@, 1) + seq![')', '\n'],
{
    let mut out = String::new();
    push_str(&mut out, "(root");
    format_nodes(&mut out, &root.children, 1);
    push_str(&mut out, ")\n");
    proof {
        reveal_strlit(")\n");
        assert(out@ =~= "(root"@ + nodes_dump(root.children@, 1) + seq![')', '\n']);
    }
    out
}

} // verus!
