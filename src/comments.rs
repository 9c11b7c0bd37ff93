//! What the formatting passes keep of a tree: its comments, counted as a multiset of texts, and
//! its statement structure.
use vstd::multiset::Multiset;
use vstd::prelude::*;
use vstd::seq_lib::lemma_multiset_commutative;

use crate::lexing::{Token, TokenType};
use crate::node::{Node, NodeValue, Statement};

verus! {

broadcast use vstd::multiset::group_multiset_axioms;

/// The texts of a list of comments
pub open spec fn texts(cs: Seq<String>) -> Multiset<Seq<char>> {
    cs.map_values(|c: String| c@).to_multiset()
}

/// The comments that follow the fragments of a concatenation
pub open spec fn fragment_comments(parts: Seq<(String, Vec<String>)>) -> Multiset<Seq<char>>
    decreases parts.len(),
{
    if parts.len() == 0 {
        Multiset::empty()
    } else {
        fragment_comments(parts.drop_last()).add(texts(parts.last().1@))
    }
}

/// The comments inside a value
pub open spec fn value_comments_of(v: Option<NodeValue>) -> Multiset<Seq<char>> {
    match v {
        Some(NodeValue::StringConcatenation(parts)) => fragment_comments(parts@),
        _ => Multiset::empty(),
    }
}

/// The comments a statement holds itself, not counting its block
pub open spec fn own_comments(st: Statement) -> Multiset<Seq<char>> {
    texts(st.keyword_comments@).add(value_comments_of(st.value)).add(texts(st.value_comments@)).add(
        texts(st.post_comments@),
    )
}

/// The comments of a statement and of its block
pub open spec fn statement_comments(st: Statement) -> Multiset<Seq<char>>
    decreases st,
{
    own_comments(st).add(
        match st.children {
            Some(c) => nodes_comments(c@),
            None => Multiset::empty(),
        },
    )
}

/// The comments of a node and of everything below it
pub open spec fn node_comments(n: Node) -> Multiset<Seq<char>>
    decreases n,
{
    match n {
        Node::Statement(st) => statement_comments(st),
        Node::Comment(t) => Multiset::singleton(t@),
        Node::EmptyLine(_) => Multiset::empty(),
    }
}

/// The comments of a sibling list and of everything below it
pub open spec fn nodes_comments(s: Seq<Node>) -> Multiset<Seq<char>>
    decreases s,
{
    if s.len() == 0 {
        Multiset::empty()
    } else {
        nodes_comments(s.drop_last()).add(node_comments(s.last()))
    }
}

pub proof fn lemma_texts_concat(a: Seq<String>, b: Seq<String>)
    ensures
        texts(a + b) == texts(a).add(texts(b)),
{
    assert((a + b).map_values(|c: String| c@) =~= a.map_values(|c: String| c@) + b.map_values(
        |c: String| c@,
    ));
    lemma_multiset_commutative(a.map_values(|c: String| c@), b.map_values(|c: String| c@));
}

pub proof fn lemma_nodes_comments_concat(a: Seq<Node>, b: Seq<Node>)
    ensures
        nodes_comments(a + b) == nodes_comments(a).add(nodes_comments(b)),
    decreases b.len(),
{
    if b.len() == 0 {
        assert(a + b =~= a);
        assert(nodes_comments(a).add(Multiset::empty()) =~= nodes_comments(a));
    } else {
        lemma_nodes_comments_concat(a, b.drop_last());
        assert((a + b).drop_last() =~= a + b.drop_last());
        assert((a + b).last() == b.last());
        assert(nodes_comments(a + b) =~= nodes_comments(a).add(nodes_comments(b)));
    }
}

/// A list of blank lines holds no comment
pub proof fn lemma_blank_lines_no_comments(s: Seq<Node>)
    requires
        forall|i: int| 0 <= i < s.len() ==> #[trigger] s[i] is EmptyLine,
    ensures
        nodes_comments(s) == Multiset::<Seq<char>>::empty(),
    decreases s.len(),
{
    if s.len() > 0 {
        let t = s.drop_last();
        assert forall|i: int| 0 <= i < t.len() implies #[trigger] t[i] is EmptyLine by {
            assert(t[i] == s[i]);
        }
        lemma_blank_lines_no_comments(t);
        let last = s.last();
        assert(s[s.len() - 1] is EmptyLine);
        assert(node_comments(last) =~= Multiset::<Seq<char>>::empty());
        assert(nodes_comments(s) =~= Multiset::<Seq<char>>::empty());
    }
}

/// Lists whose nodes hold the same comments, position by position, hold the same comments
pub proof fn lemma_pointwise_comments(a: Seq<Node>, b: Seq<Node>)
    requires
        a.len() == b.len(),
        forall|i: int| 0 <= i < a.len() ==> node_comments(#[trigger] a[i]) == node_comments(b[i]),
    ensures
        nodes_comments(a) == nodes_comments(b),
    decreases a.len(),
{
    if a.len() > 0 {
        assert forall|i: int| 0 <= i < a.len() - 1 implies node_comments(#[trigger] a.drop_last()[i])
            == node_comments(b.drop_last()[i]) by {
            assert(a.drop_last()[i] == a[i]);
            assert(b.drop_last()[i] == b[i]);
        }
        lemma_pointwise_comments(a.drop_last(), b.drop_last());
        assert(node_comments(a.last()) == node_comments(b.last()));
    }
}

/// The text of a comment token
pub open spec fn token_comment(t: Token) -> Multiset<Seq<char>> {
    if t.token_type == TokenType::Comment {
        Multiset::singleton(t.text@)
    } else {
        Multiset::empty()
    }
}

/// The texts of the comment tokens among `ts`
pub open spec fn token_comments(ts: Seq<Token>) -> Multiset<Seq<char>>
    decreases ts.len(),
{
    if ts.len() == 0 {
        Multiset::empty()
    } else {
        token_comments(ts.drop_last()).add(token_comment(ts.last()))
    }
}

pub proof fn lemma_texts_push(cs: Seq<String>, c: String)
    ensures
        texts(cs.push(c)) == texts(cs).add(Multiset::singleton(c@)),
{
    broadcast use vstd::seq_lib::group_to_multiset_ensures;

    assert(cs.push(c).map_values(|x: String| x@) =~= cs.map_values(|x: String| x@).push(c@));
    assert(texts(cs).insert(c@) =~= texts(cs).add(Multiset::singleton(c@)));
}

pub proof fn lemma_texts_of_no_comments(cs: Seq<String>)
    requires
        cs.len() == 0,
    ensures
        texts(cs) == Multiset::<Seq<char>>::empty(),
{
    broadcast use vstd::seq_lib::group_to_multiset_ensures;

    let m = texts(cs);
    assert(m.len() == 0);
    assert forall|x: Seq<char>| m.count(x) == 0 by {
        if m.count(x) > 0 {
            assert(m.contains(x));
            assert(cs.map_values(|c: String| c@).contains(x));
        }
    }
    assert(m =~= Multiset::<Seq<char>>::empty());
}

/// Swapping two nodes keeps the comments of the list
pub proof fn lemma_swap_comments(s: Seq<Node>, p: int, q: int)
    requires
        0 <= p < q < s.len(),
    ensures
        nodes_comments(s.update(p, s[q]).update(q, s[p])) == nodes_comments(s),
{
    let t = s.update(p, s[q]).update(q, s[p]);
    let a = s.subrange(0, p);
    let x = seq![s[p]];
    let m = s.subrange(p + 1, q);
    let y = seq![s[q]];
    let c = s.subrange(q + 1, s.len() as int);
    assert(s =~= a + x + m + y + c);
    assert(t =~= a + y + m + x + c);
    lemma_nodes_comments_concat(a + x + m + y, c);
    lemma_nodes_comments_concat(a + x + m, y);
    lemma_nodes_comments_concat(a + x, m);
    lemma_nodes_comments_concat(a, x);
    lemma_nodes_comments_concat(a + y + m + x, c);
    lemma_nodes_comments_concat(a + y + m, x);
    lemma_nodes_comments_concat(a + y, m);
    lemma_nodes_comments_concat(a, y);
    assert(nodes_comments(t) =~= nodes_comments(s));
}

/// One step of a walk over a tree's statements
pub enum ShapeStep {
    /// A statement: its keyword and the kind of its value
    Statement(Seq<char>, ValueKind),
    BlockStart,
    BlockEnd,
}

/// The kind of a statement's value; a run of quoted strings is a quoted string
pub enum ValueKind {
    Absent,
    Quoted,
    Number,
    Date,
    Other,
}

pub open spec fn value_kind(v: Option<NodeValue>) -> ValueKind {
    match v {
        None => ValueKind::Absent,
        Some(NodeValue::String(_)) => ValueKind::Quoted,
        Some(NodeValue::StringConcatenation(_)) => ValueKind::Quoted,
        Some(NodeValue::Number(_)) => ValueKind::Number,
        Some(NodeValue::Date(_)) => ValueKind::Date,
        Some(NodeValue::Other(_)) => ValueKind::Other,
    }
}

/// The statements of a statement's subtree: the statement, then its block, if any, between a
/// start and an end
pub open spec fn statement_shape(st: Statement) -> Seq<ShapeStep>
    decreases st,
{
    seq![ShapeStep::Statement(st.keyword.spec_text(), value_kind(st.value))] + match st.children {
        Some(c) => seq![ShapeStep::BlockStart] + nodes_shape(c@) + seq![ShapeStep::BlockEnd],
        None => Seq::empty(),
    }
}

/// The statements below a node; comments and blank lines have none
pub open spec fn node_shape(n: Node) -> Seq<ShapeStep>
    decreases n,
{
    match n {
        Node::Statement(st) => statement_shape(st),
        _ => Seq::empty(),
    }
}

/// The statements of a sibling list and of everything below it, in order
pub open spec fn nodes_shape(s: Seq<Node>) -> Seq<ShapeStep>
    decreases s,
{
    if s.len() == 0 {
        Seq::empty()
    } else {
        nodes_shape(s.drop_last()) + node_shape(s.last())
    }
}

pub proof fn lemma_nodes_shape_concat(a: Seq<Node>, b: Seq<Node>)
    ensures
        nodes_shape(a + b) == nodes_shape(a) + nodes_shape(b),
    decreases b.len(),
{
    if b.len() == 0 {
        assert(a + b =~= a);
        assert(nodes_shape(a) + nodes_shape(b) =~= nodes_shape(a));
    } else {
        lemma_nodes_shape_concat(a, b.drop_last());
        assert((a + b).drop_last() =~= a + b.drop_last());
        assert((a + b).last() == b.last());
        assert(nodes_shape(a + b) =~= nodes_shape(a) + nodes_shape(b));
    }
}

/// A list of blank lines holds no statement
pub proof fn lemma_blank_lines_no_shape(s: Seq<Node>)
    requires
        forall|i: int| 0 <= i < s.len() ==> #[trigger] s[i] is EmptyLine,
    ensures
        nodes_shape(s) == Seq::<ShapeStep>::empty(),
    decreases s.len(),
{
    if s.len() > 0 {
        let t = s.drop_last();
        assert forall|i: int| 0 <= i < t.len() implies #[trigger] t[i] is EmptyLine by {
            assert(t[i] == s[i]);
        }
        lemma_blank_lines_no_shape(t);
        let last = s.last();
        assert(s[s.len() - 1] is EmptyLine);
        assert(node_shape(last) =~= Seq::<ShapeStep>::empty());
        assert(nodes_shape(s) =~= Seq::<ShapeStep>::empty());
    }
}

/// Lists whose nodes have the same shape, position by position, have the same shape
pub proof fn lemma_pointwise_shape(a: Seq<Node>, b: Seq<Node>)
    requires
        a.len() == b.len(),
        forall|i: int| 0 <= i < a.len() ==> node_shape(#[trigger] a[i]) == node_shape(b[i]),
    ensures
        nodes_shape(a) == nodes_shape(b),
    decreases a.len(),
{
    if a.len() > 0 {
        assert forall|i: int| 0 <= i < a.len() - 1 implies node_shape(#[trigger] a.drop_last()[i])
            == node_shape(b.drop_last()[i]) by {
            assert(a.drop_last()[i] == a[i]);
            assert(b.drop_last()[i] == b[i]);
        }
        lemma_pointwise_shape(a.drop_last(), b.drop_last());
        assert(node_shape(a.last()) == node_shape(b.last()));
    }
}

} // verus!
