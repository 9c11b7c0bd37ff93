//! The formatting passes over the syntax tree, and the printer.
use vstd::prelude::*;

use crate::canonical_order::{
    permuted_by, sort_statements, sorts_children, statements_in_rank_order, statements_permuted,
};
use crate::comments::{
    ShapeStep,
    fragment_comments, lemma_blank_lines_no_comments, lemma_nodes_comments_concat,
    lemma_texts_of_no_comments,
    lemma_pointwise_comments, lemma_texts_concat, node_comments, nodes_comments, own_comments,
    statement_comments, texts, token_comments, value_comments_of, lemma_blank_lines_no_shape,
    lemma_nodes_shape_concat, lemma_pointwise_shape, node_shape, nodes_shape, statement_shape,
    value_kind,
};
use vstd::multiset::Multiset;
use crate::node::{Node, NodeHelpers, NodeValue, Statement};
use crate::lexing::{spec_scan, tokens_match, Token};
use crate::parsing::{failure_matches, parse, parsed_tree, spec_parse, ParseError};
use crate::text::{
    chars_of, dedent, dedent_of, is_white, join, join_lines, lines, push_char, push_str,
    split_lines, string_of, trim, trimmed, white_run_end, white_run_start, lemma_white_run_start_above,
};
use crate::vecs::{backwards, reversed};

verus! {

/// One level of indentation
pub enum Indent {
    Spaces(u8),
}

/// What the formatter is asked for
pub struct FormatConfig {
    pub indent: Indent,
    /// The column that lines should not pass
    pub line_length: u16,
    /// Whether to sort statements into canonical order where that is safe
    pub fix_canonical_order: bool,
}

impl FormatConfig {
    pub open spec fn spec_indent_width(&self) -> nat {
        match self.indent {
            Indent::Spaces(n) => n as nat,
        }
    }

    /// Number of spaces in one level of indentation
    pub fn indent_width(&self) -> (r: u8)
        ensures
            r == self.spec_indent_width(),
    {
        match self.indent {
            Indent::Spaces(num) => num,
        }
    }
}

/// Why formatting failed: the input does not parse, or the output could not be written
#[derive(Debug)]
pub enum Error {
    ParseError(ParseError),
    IOError(String),
}

// Quote normalization, stripping and dedenting of quoted strings

/// What lies between the quotes of a quoted string
pub open spec fn quote_inner(t: Seq<char>) -> Seq<char> {
    t.subrange(1, t.len() - 1)
}

/// A single-quoted string is double-quoted unless it holds a double quote
pub open spec fn normalized_quotes(t: Seq<char>) -> Seq<char> {
    if t.len() >= 2 && t[0] == '\'' && !quote_inner(t).contains('"') {
        seq!['"'] + quote_inner(t) + seq!['"']
    } else {
        t
    }
}

/// A quoted string with the whitespace inside its quotes removed at both ends; one holding only
/// whitespace becomes the empty double-quoted string
pub open spec fn stripped_quotes(t: Seq<char>) -> Seq<char> {
    if t.len() >= 2 && trimmed(quote_inner(t)).len() == 0 {
        seq!['"', '"']
    } else if t.len() >= 2 {
        seq![t[0]] + trimmed(quote_inner(t)) + seq![t.last()]
    } else {
        t
    }
}

/// A quoted string of two lines or more keeps its first line as it is; the rest is dedented
pub open spec fn dedented_quotes(t: Seq<char>) -> Seq<char> {
    let ls = split_lines(quote_inner(t));
    if t.len() >= 2 && ls.len() >= 2 {
        seq![t[0]] + ls[0] + seq!['\n'] + dedent_of(join_lines(ls.skip(1))) + seq![t[0]]
    } else {
        t
    }
}

/// `new` is `old` with `f` applied to each quoted string in it: the whole value, or each
/// fragment of a concatenation when `fragments` holds
pub open spec fn value_mapped(
    old: NodeValue,
    new: NodeValue,
    f: spec_fn(Seq<char>) -> Seq<char>,
    fragments: bool,
) -> bool {
    match old {
        NodeValue::String(t) => new matches NodeValue::String(u) && u@ == f(t@),
        NodeValue::StringConcatenation(parts) => if fragments {
            new matches NodeValue::StringConcatenation(ps) && ps@.len() == parts@.len() && forall|
                i: int,
            |
                0 <= i < ps@.len() ==> (#[trigger] ps@[i]).0@ == f(parts@[i].0@) && ps@[i].1
                    == parts@[i].1
        } else {
            new == old
        },
        _ => new == old,
    }
}

/// `new` is `old` with its value, if it is a statement with one, mapped as `value_mapped` says
pub open spec fn node_value_mapped(
    old: Node,
    new: Node,
    f: spec_fn(Seq<char>) -> Seq<char>,
    fragments: bool,
) -> bool {
    match old {
        Node::Statement(st) => new matches Node::Statement(st2) && st2 == (Statement {
            value: st2.value,
            ..st
        }) && match st.value {
            Some(v) => st2.value matches Some(w) && value_mapped(v, w, f, fragments),
            None => st2.value is None,
        },
        _ => new == old,
    }
}

/// Quote normalization is safe for the content: through the three rewrites of a quoted value
/// (quotes, stripping, dedenting), a single-quoted string without a double quote inside comes
/// out double-quoted, and one with a double quote inside keeps its single quotes
pub proof fn lemma_quote_normalization_content_safe(t: Seq<char>)
    requires
        t.len() >= 2,
        t[0] == '\'',
        t.last() == '\'',
    ensures
        ({
            let u = dedented_quotes(stripped_quotes(normalized_quotes(t)));
            &&& u.len() >= 2
            &&& !quote_inner(t).contains('"') ==> u[0] == '"' && u.last() == '"'
            &&& quote_inner(t).contains('"') ==> u[0] == '\'' && u.last() == '\''
        }),
{
    let n = normalized_quotes(t);
    let q = if quote_inner(t).contains('"') { '\'' } else { '"' };
    assert(n.len() >= 2 && n[0] == q && n.last() == q);
    if quote_inner(t).contains('"') {
        let k = choose|k: int| 0 <= k < quote_inner(t).len() && quote_inner(t)[k] == '"';
        lemma_non_white_survives_trim(quote_inner(t), k);
        assert(quote_inner(n) =~= quote_inner(t));
    } else {
        assert(quote_inner(n) =~= quote_inner(t));
    }
    let s = stripped_quotes(n);
    assert(s.len() >= 2 && s[0] == q && s.last() == q);
    let u = dedented_quotes(s);
    let ls = split_lines(quote_inner(s));
    if ls.len() >= 2 {
        let body = ls[0] + seq!['\n'] + dedent_of(join_lines(ls.skip(1)));
        assert(u =~= seq![q] + body + seq![q]);
    }
}

proof fn lemma_non_white_survives_trim(s: Seq<char>, k: int)
    requires
        0 <= k < s.len(),
        !is_white(s[k]),
    ensures
        trimmed(s).len() > 0,
{
    lemma_white_run_end_stops(s, 0, k);
    lemma_white_run_start_above(s, s.len() as int, k);
    let a = white_run_end(s, 0);
    let b = white_run_start(s, s.len() as int);
    assert(trimmed(s) == s.subrange(a, b));
}

proof fn lemma_white_run_end_stops(s: Seq<char>, i: int, k: int)
    requires
        0 <= i <= k < s.len(),
        !is_white(s[k]),
    ensures
        i <= white_run_end(s, i) <= k,
    decreases k - i,
{
    if is_white(s[i]) {
        lemma_white_run_end_stops(s, i + 1, k);
    }
}

/// A value on one line goes right after its keyword when keyword, value, the space between and
/// the terminator fit the width, and alone on a new line one level deeper when they do not
pub proof fn lemma_greedy_wrap(config: &FormatConfig, depth: int, kw: Seq<char>, v: NodeValue, t: Seq<char>)
    requires
        match v {
            NodeValue::String(s) => s@ == t && !t.contains('\n'),
            NodeValue::Number(s) => s@ == t,
            NodeValue::Date(s) => s@ == t,
            NodeValue::Other(s) => s@ == t,
            NodeValue::StringConcatenation(_) => false,
        },
    ensures
        depth * config.spec_indent_width() + kw.len() + t.len() + 2 > config.line_length ==> value_text(
            config,
            depth,
            kw,
            v,
        ) == seq!['\n'] + indentation(config, depth + 1) + t,
        depth * config.spec_indent_width() + kw.len() + t.len() + 2 <= config.line_length ==> value_text(
            config,
            depth,
            kw,
            v,
        ) == seq![' '] + t,
{
}

fn normalize_quotes(text: String) -> (r: String)
    ensures
        r@ == normalized_quotes(text@),
{
    let chars = chars_of(text.as_str());
    let n = chars.len();
    if n < 2 || chars[0] != '\'' {
        return text;
    }
    let mut i: usize = 1;
    while i < n - 1
        invariant
            n == chars@.len(),
            chars@ == text@,
            2 <= n,
            1 <= i <= n - 1,
            forall|j: int| 1 <= j < i ==> chars@[j] != '"',
        decreases n - i,
    {
        if chars[i] == '"' {
            proof {
                assert(quote_inner(text@)[i - 1] == '"');
            }
            return text;
        }
        i = i + 1;
    }
    let mut out: Vec<char> = Vec::new();
    out.push('"');
    let mut i: usize = 1;
    while i < n - 1
        invariant
            n == chars@.len(),
            chars@ == text@,
            2 <= n,
            1 <= i <= n - 1,
            out@ == seq!['"'] + chars@.subrange(1, i as int),
        decreases n - i,
    {
        out.push(chars[i]);
        i = i + 1;
        proof {
            assert(out@ =~= seq!['"'] + chars@.subrange(1, i as int));
        }
    }
    out.push('"');
    proof {
        assert(!quote_inner(text@).contains('"')) by {
            if quote_inner(text@).contains('"') {
                let k = choose|k: int| 0 <= k < quote_inner(text@).len() && quote_inner(text@)[k] == '"';
                assert(chars@[k + 1] == '"');
            }
        }
        assert(out@ =~= normalized_quotes(text@));
    }
    string_of(out.as_slice())
}

fn strip_quotes(text: String) -> (r: String)
    ensures
        r@ == stripped_quotes(text@),
{
    let chars = chars_of(text.as_str());
    let n = chars.len();
    if n < 2 {
        return text;
    }
    let mut inner: Vec<char> = Vec::new();
    let mut i: usize = 1;
    while i < n - 1
        invariant
            n == chars@.len(),
            chars@ == text@,
            2 <= n,
            1 <= i <= n - 1,
            inner@ == chars@.subrange(1, i as int),
        decreases n - i,
    {
        inner.push(chars[i]);
        i = i + 1;
        proof {
            assert(inner@ =~= chars@.subrange(1, i as int));
        }
    }
    let body = trim(inner.as_slice());
    proof {
        assert(inner@ =~= quote_inner(text@));
    }
    if body.len() == 0 {
        let mut empty: Vec<char> = Vec::new();
        empty.push('"');
        empty.push('"');
        proof {
            assert(empty@ =~= stripped_quotes(text@));
        }
        return string_of(empty.as_slice());
    }
    let mut out: Vec<char> = Vec::new();
    out.push(chars[0]);
    let mut i: usize = 0;
    while i < body.len()
        invariant
            i <= body@.len(),
            out@ == seq![chars@[0]] + body@.subrange(0, i as int),
        decreases body@.len() - i,
    {
        out.push(body[i]);
        i = i + 1;
        proof {
            assert(out@ =~= seq![chars@[0]] + body@.subrange(0, i as int));
        }
    }
    out.push(chars[n - 1]);
    proof {
        assert(inner@ =~= quote_inner(text@));
        assert(body@.subrange(0, body@.len() as int) =~= body@);
        assert(out@ =~= stripped_quotes(text@));
    }
    string_of(out.as_slice())
}

fn dedent_quotes(text: String) -> (r: String)
    ensures
        r@ == dedented_quotes(text@),
{
    let chars = chars_of(text.as_str());
    let n = chars.len();
    if n < 2 {
        return text;
    }
    let mut inner: Vec<char> = Vec::new();
    let mut i: usize = 1;
    while i < n - 1
        invariant
            n == chars@.len(),
            chars@ == text@,
            2 <= n,
            1 <= i <= n - 1,
            inner@ == chars@.subrange(1, i as int),
        decreases n - i,
    {
        inner.push(chars[i]);
        i = i + 1;
        proof {
            assert(inner@ =~= chars@.subrange(1, i as int));
        }
    }
    proof {
        assert(inner@ =~= quote_inner(text@));
    }
    let ls = lines(inner.as_slice());
    if ls.len() < 2 {
        return text;
    }
    let rest = string_of(join(&ls, 1).as_slice());
    let rest = chars_of(dedent(rest.as_str()).as_str());
    let quote = chars[0];
    let mut out: Vec<char> = Vec::new();
    out.push(quote);
    append_chars(&mut out, &ls[0]);
    out.push('\n');
    append_chars(&mut out, &rest);
    out.push(quote);
    proof {
        let views = ls@.map_values(|l: Vec<char>| l@);
        assert(views[0] == ls@[0]@);
        assert(out@ =~= dedented_quotes(text@));
    }
    string_of(out.as_slice())
}

fn append_chars(out: &mut Vec<char>, s: &Vec<char>)
    ensures
        final(out)@ == old(out)@ + s@,
{
    let mut i: usize = 0;
    while i < s.len()
        invariant
            i <= s@.len(),
            out@ == old(out)@ + s@.subrange(0, i as int),
        decreases s@.len() - i,
    {
        out.push(s[i]);
        i = i + 1;
        proof {
            assert(out@ =~= old(out)@ + s@.subrange(0, i as int));
        }
    }
    proof {
        assert(s@.subrange(0, s@.len() as int) =~= s@);
    }
}

/// Converts single-quoted strings to double-quoted ones, unless they hold a double quote
fn convert_to_double_quotes(node: Node) -> (r: Node)
    ensures
        node_value_mapped(node, r, |t: Seq<char>| normalized_quotes(t), true),
{
    match node {
        Node::Statement(st) => {
            let Statement {
                keyword,
                keyword_comments,
                value,
                value_comments,
                children,
                post_comments,
            } = st;
            let value = match value {
                Some(NodeValue::String(text)) => Some(NodeValue::String(normalize_quotes(text))),
                Some(NodeValue::StringConcatenation(parts)) => {
                    let mut rev = reversed(parts);
                    let ghost orig = backwards(rev@);
                    let mut out: Vec<(String, Vec<String>)> = Vec::new();
                    while rev.len() > 0
                        invariant
                            out@.len() + rev@.len() == orig.len(),
                            forall|j: int|
                                0 <= j < rev@.len() ==> #[trigger] rev@[j] == orig[orig.len() - 1
                                    - j],
                            forall|j: int|
                                0 <= j < out@.len() ==> (#[trigger] out@[j]).0@
                                    == normalized_quotes(orig[j].0@) && out@[j].1 == orig[j].1,
                        decreases rev@.len(),
                    {
                        let (text, comments) = rev.pop().unwrap();
                        out.push((normalize_quotes(text), comments));
                    }
                    Some(NodeValue::StringConcatenation(out))
                },
                other => other,
            };
            Node::Statement(
                Statement {
                    keyword,
                    keyword_comments,
                    value,
                    value_comments,
                    children,
                    post_comments,
                },
            )
        },
        other => other,
    }
}

/// Strips the whitespace inside the quotes of a quoted value
fn strip_string(node: Node) -> (r: Node)
    ensures
        node_value_mapped(node, r, |t: Seq<char>| stripped_quotes(t), false),
{
    match node {
        Node::Statement(st) => {
            let Statement {
                keyword,
                keyword_comments,
                value,
                value_comments,
                children,
                post_comments,
            } = st;
            let value = match value {
                Some(NodeValue::String(text)) => Some(NodeValue::String(strip_quotes(text))),
                other => other,
            };
            Node::Statement(
                Statement {
                    keyword,
                    keyword_comments,
                    value,
                    value_comments,
                    children,
                    post_comments,
                },
            )
        },
        other => other,
    }
}

/// Dedents the lines after the first of a multi-line quoted value
///
/// Their indentation belongs to the layout they came from; the printer sets it anew.
fn dedent_multilined_string(node: Node) -> (r: Node)
    ensures
        node_value_mapped(node, r, |t: Seq<char>| dedented_quotes(t), false),
{
    match node {
        Node::Statement(st) => {
            let Statement {
                keyword,
                keyword_comments,
                value,
                value_comments,
                children,
                post_comments,
            } = st;
            let value = match value {
                Some(NodeValue::String(text)) => Some(NodeValue::String(dedent_quotes(text))),
                other => other,
            };
            Node::Statement(
                Statement {
                    keyword,
                    keyword_comments,
                    value,
                    value_comments,
                    children,
                    post_comments,
                },
            )
        },
        other => other,
    }
}

// Passes over a sibling list

/// End of the run of blank lines in `s` that starts at `i`
pub open spec fn blank_run_end(s: Seq<Node>, i: int) -> int
    decreases s.len() - i,
{
    if 0 <= i < s.len() && s[i] is EmptyLine {
        blank_run_end(s, i + 1)
    } else {
        i
    }
}

/// Start of the run of blank lines in `s` that ends at `j`
pub open spec fn blank_run_start(s: Seq<Node>, j: int) -> int
    decreases j,
{
    if 0 < j <= s.len() && s[j - 1] is EmptyLine {
        blank_run_start(s, j - 1)
    } else {
        j
    }
}

/// The list without its leading and trailing blank lines
pub open spec fn trimmed_nodes(s: Seq<Node>) -> Seq<Node> {
    let start = blank_run_end(s, 0);
    if start >= s.len() {
        Seq::empty()
    } else {
        s.subrange(start, blank_run_start(s, s.len() as int))
    }
}

/// The list with every blank line that follows another blank line removed
pub open spec fn squashed(s: Seq<Node>) -> Seq<Node>
    decreases s.len(),
{
    if s.len() <= 1 {
        s
    } else if s.last() is EmptyLine && s[s.len() - 2] is EmptyLine {
        squashed(s.drop_last())
    } else {
        squashed(s.drop_last()).push(s.last())
    }
}

/// No blank line opens or closes the list, and no two blank lines follow each other
pub open spec fn blank_lines_tidy(s: Seq<Node>) -> bool {
    &&& s.len() > 0 ==> !(s[0] is EmptyLine) && !(s.last() is EmptyLine)
    &&& forall|i: int| 0 <= i < s.len() - 1 ==> !(#[trigger] s[i] is EmptyLine && s[i + 1] is EmptyLine)
}

/// The two lists have blank lines at the same positions
pub open spec fn same_blank_lines(a: Seq<Node>, b: Seq<Node>) -> bool {
    &&& a.len() == b.len()
    &&& forall|i: int| 0 <= i < a.len() ==> (#[trigger] a[i] is EmptyLine <==> b[i] is EmptyLine)
}

proof fn lemma_blank_run_start_above(s: Seq<Node>, j: int, k: int)
    requires
        0 <= k < j <= s.len(),
        !(s[k] is EmptyLine),
    ensures
        k < blank_run_start(s, j) <= j,
    decreases j,
{
    if s[j - 1] is EmptyLine {
        lemma_blank_run_start_above(s, j - 1, k);
    }
}

/// Removes leading and trailing blank lines from the list
///
///     foo {
///
///         bar "Test";
///
///     }
///
/// becomes
///
///     foo {
///         bar "Test";
///     }
fn trim_line_breaks(statements: &mut Vec<Node>)
    ensures
        final(statements)@ == trimmed_nodes(old(statements)@),
        nodes_comments(final(statements)@) == nodes_comments(old(statements)@),
        nodes_shape(final(statements)@) == nodes_shape(old(statements)@),
{
    let ghost orig = statements@;
    let mut start: usize = 0;
    while start < statements.len() && statements[start].is_empty_line()
        invariant
            statements@ == orig,
            start <= orig.len(),
            blank_run_end(orig, 0) == blank_run_end(orig, start as int),
        decreases orig.len() - start,
    {
        start = start + 1;
    }
    proof {
        lemma_trimmed_comments(orig);
        lemma_trimmed_shape(orig);
    }
    if start == statements.len() {
        statements.clear();
        return;
    }
    let mut end: usize = statements.len();
    proof {
        lemma_blank_run_start_above(orig, end as int, start as int);
    }
    while end > start && statements[end - 1].is_empty_line()
        invariant
            statements@ == orig,
            start < orig.len(),
            !(orig[start as int] is EmptyLine),
            start <= end <= orig.len(),
            blank_run_start(orig, orig.len() as int) == blank_run_start(orig, end as int),
            start < blank_run_start(orig, orig.len() as int),
            blank_run_start(orig, end as int) <= end,
        decreases end,
    {
        end = end - 1;
        proof {
            lemma_blank_run_start_above(orig, end as int, start as int);
        }
    }
    assert(start == blank_run_end(orig, 0));
    statements.truncate(end);
    let mut removed: usize = 0;
    while removed < start
        invariant
            removed <= start < end <= orig.len(),
            statements@ == orig.subrange(removed as int, end as int),
        decreases start - removed,
    {
        statements.remove(0);
        removed = removed + 1;
        proof {
            assert(statements@ =~= orig.subrange(removed as int, end as int));
        }
    }
}

/// Squashes every run of blank lines into one
///
///     foo "123";
///
///
///     bar "123";
///
/// becomes
///
///     foo "123";
///
///     bar "123";
fn squash_line_breaks(statements: &mut Vec<Node>)
    ensures
        final(statements)@ == squashed(old(statements)@),
        nodes_comments(final(statements)@) == nodes_comments(old(statements)@),
        nodes_shape(final(statements)@) == nodes_shape(old(statements)@),
{
    let ghost orig = statements@;
    let mut taken: Vec<Node> = Vec::new();
    taken.append(statements);
    let mut rev = reversed(taken);
    let mut prev_was_blank = false;
    while rev.len() > 0
        invariant
            rev@.len() <= orig.len(),
            forall|j: int| 0 <= j < rev@.len() ==> #[trigger] rev@[j] == orig[orig.len() - 1 - j],
            statements@ == squashed(orig.take(orig.len() - rev@.len())),
            prev_was_blank == (orig.len() - rev@.len() > 0 && orig[orig.len() - rev@.len() - 1] is EmptyLine),
        decreases rev@.len(),
    {
        let ghost i = orig.len() - rev@.len();
        let node = rev.pop().unwrap();
        let is_blank = node.is_empty_line();
        proof {
            assert(node == orig[i]);
            assert(orig.take(i + 1).drop_last() =~= orig.take(i));
        }
        if !(is_blank && prev_was_blank) {
            statements.push(node);
        }
        prev_was_blank = is_blank;
    }
    proof {
        assert(orig.take(orig.len() as int) =~= orig);
        lemma_squashed_comments(orig);
        lemma_squashed_keeps_statements(orig);
    }
}

pub proof fn lemma_squashed_shape(s: Seq<Node>)
    ensures
        squashed(s).len() <= s.len(),
        s.len() > 0 ==> squashed(s).len() > 0 && squashed(s)[0] == s[0] && (squashed(s).last() is EmptyLine
            <==> s.last() is EmptyLine),
        forall|i: int|
            0 <= i < squashed(s).len() - 1 ==> !(#[trigger] squashed(s)[i] is EmptyLine && squashed(
                s,
            )[i + 1] is EmptyLine),
    decreases s.len(),
{
    if s.len() > 1 {
        let t = s.drop_last();
        lemma_squashed_shape(t);
        if s.last() is EmptyLine && s[s.len() - 2] is EmptyLine {
            assert(t.last() == s[s.len() - 2]);
        } else {
            let q = squashed(t);
            assert(squashed(s) == q.push(s.last()));
            assert forall|i: int|
                0 <= i < squashed(s).len() - 1 implies !(#[trigger] squashed(s)[i] is EmptyLine
                && squashed(s)[i + 1] is EmptyLine) by {
                if i == q.len() - 1 {
                    assert(q[i] is EmptyLine <==> t.last() is EmptyLine);
                    assert(t.last() == s[s.len() - 2]);
                } else {
                    assert(squashed(s)[i] == q[i]);
                    assert(squashed(s)[i + 1] == q[i + 1]);
                }
            }
        }
    }
}

/// Blank lines left by the formatting passes: after trimming and squashing, no blank line opens
/// or closes a sibling list, and no two blank lines follow each other
pub proof fn lemma_trim_then_squash_tidy(s: Seq<Node>)
    ensures
        blank_lines_tidy(squashed(trimmed_nodes(s))),
{
    let t = trimmed_nodes(s);
    let start = blank_run_end(s, 0);
    if start < s.len() {
        lemma_blank_run_end_bounds(s, 0);
        lemma_blank_run_start_above(s, s.len() as int, start);
        let end = blank_run_start(s, s.len() as int);
        lemma_blank_run_start_stops(s, s.len() as int);
        assert(t[0] == s[start]);
        assert(t.last() == s[end - 1]);
    }
    lemma_squashed_shape(t);
}

proof fn lemma_blank_run_end_bounds(s: Seq<Node>, i: int)
    requires
        0 <= i <= s.len(),
    ensures
        i <= blank_run_end(s, i) <= s.len(),
        blank_run_end(s, i) < s.len() ==> !(s[blank_run_end(s, i)] is EmptyLine),
    decreases s.len() - i,
{
    if i < s.len() && s[i] is EmptyLine {
        lemma_blank_run_end_bounds(s, i + 1);
    }
}

proof fn lemma_blank_run_start_stops(s: Seq<Node>, j: int)
    requires
        0 <= j <= s.len(),
    ensures
        0 <= blank_run_start(s, j) <= j,
        blank_run_start(s, j) > 0 ==> !(s[blank_run_start(s, j) - 1] is EmptyLine),
    decreases j,
{
    if j > 0 && s[j - 1] is EmptyLine {
        lemma_blank_run_start_stops(s, j - 1);
    }
}

proof fn lemma_blank_prefix(s: Seq<Node>, i: int)
    requires
        0 <= i <= s.len(),
    ensures
        forall|k: int| i <= k < blank_run_end(s, i) ==> #[trigger] s[k] is EmptyLine,
    decreases s.len() - i,
{
    if i < s.len() && s[i] is EmptyLine {
        lemma_blank_prefix(s, i + 1);
    }
}

proof fn lemma_blank_suffix(s: Seq<Node>, j: int)
    requires
        0 <= j <= s.len(),
    ensures
        forall|k: int| blank_run_start(s, j) <= k < j ==> #[trigger] s[k] is EmptyLine,
    decreases j,
{
    if j > 0 && s[j - 1] is EmptyLine {
        lemma_blank_suffix(s, j - 1);
    }
}

/// Trimming removes blank lines only, so no comment
proof fn lemma_trimmed_comments(s: Seq<Node>)
    ensures
        nodes_comments(trimmed_nodes(s)) == nodes_comments(s),
{
    let a = blank_run_end(s, 0);
    lemma_blank_run_end_bounds(s, 0);
    lemma_blank_prefix(s, 0);
    if a >= s.len() {
        lemma_blank_lines_no_comments(s);
    } else {
        let b = blank_run_start(s, s.len() as int);
        lemma_blank_run_start_above(s, s.len() as int, a);
        lemma_blank_suffix(s, s.len() as int);
        let head = s.subrange(0, a);
        let mid = s.subrange(a, b);
        let tail = s.subrange(b, s.len() as int);
        assert forall|i: int| 0 <= i < head.len() implies #[trigger] head[i] is EmptyLine by {
            assert(head[i] == s[i]);
        }
        assert forall|i: int| 0 <= i < tail.len() implies #[trigger] tail[i] is EmptyLine by {
            assert(tail[i] == s[b + i]);
        }
        lemma_blank_lines_no_comments(head);
        lemma_blank_lines_no_comments(tail);
        assert(s =~= head + mid + tail);
        lemma_nodes_comments_concat(head + mid, tail);
        lemma_nodes_comments_concat(head, mid);
        assert(nodes_comments(s) =~= nodes_comments(mid));
    }
}

/// Squashing removes blank lines only, so no comment
proof fn lemma_squashed_comments(s: Seq<Node>)
    ensures
        nodes_comments(squashed(s)) == nodes_comments(s),
    decreases s.len(),
{
    if s.len() > 1 {
        let t = s.drop_last();
        lemma_squashed_comments(t);
        if s.last() is EmptyLine && s[s.len() - 2] is EmptyLine {
            assert(node_comments(s.last()) =~= Multiset::<Seq<char>>::empty());
            assert(nodes_comments(s) =~= nodes_comments(t));
        } else {
            let q = squashed(t);
            assert(q.push(s.last()).drop_last() =~= q);
        }
    }
}

/// Trimming removes blank lines only, so no statement
proof fn lemma_trimmed_shape(s: Seq<Node>)
    ensures
        nodes_shape(trimmed_nodes(s)) == nodes_shape(s),
{
    let a = blank_run_end(s, 0);
    lemma_blank_run_end_bounds(s, 0);
    lemma_blank_prefix(s, 0);
    if a >= s.len() {
        lemma_blank_lines_no_shape(s);
    } else {
        let b = blank_run_start(s, s.len() as int);
        lemma_blank_run_start_above(s, s.len() as int, a);
        lemma_blank_suffix(s, s.len() as int);
        let head = s.subrange(0, a);
        let mid = s.subrange(a, b);
        let tail = s.subrange(b, s.len() as int);
        assert forall|i: int| 0 <= i < head.len() implies #[trigger] head[i] is EmptyLine by {
            assert(head[i] == s[i]);
        }
        assert forall|i: int| 0 <= i < tail.len() implies #[trigger] tail[i] is EmptyLine by {
            assert(tail[i] == s[b + i]);
        }
        lemma_blank_lines_no_shape(head);
        lemma_blank_lines_no_shape(tail);
        assert(s =~= head + mid + tail);
        lemma_nodes_shape_concat(head + mid, tail);
        lemma_nodes_shape_concat(head, mid);
        assert(nodes_shape(s) =~= nodes_shape(mid));
    }
}

/// Squashing removes blank lines only, so no statement
proof fn lemma_squashed_keeps_statements(s: Seq<Node>)
    ensures
        nodes_shape(squashed(s)) == nodes_shape(s),
    decreases s.len(),
{
    if s.len() > 1 {
        let t = s.drop_last();
        lemma_squashed_keeps_statements(t);
        if s.last() is EmptyLine && s[s.len() - 2] is EmptyLine {
            assert(node_shape(s.last()) =~= Seq::<ShapeStep>::empty());
            assert(nodes_shape(s) =~= nodes_shape(t));
        } else {
            let q = squashed(t);
            assert(q.push(s.last()).drop_last() =~= q);
        }
    }
}

/// A list without two blank lines in a row is its own squashing
proof fn lemma_squashed_noop(s: Seq<Node>)
    requires
        forall|i: int| 0 <= i < s.len() - 1 ==> !(#[trigger] s[i] is EmptyLine && s[i + 1] is EmptyLine),
    ensures
        squashed(s) == s,
    decreases s.len(),
{
    if s.len() > 1 {
        let t = s.drop_last();
        assert forall|i: int| 0 <= i < t.len() - 1 implies !(#[trigger] t[i] is EmptyLine && t[i
            + 1] is EmptyLine) by {
            assert(t[i] == s[i]);
            assert(t[i + 1] == s[i + 1]);
        }
        lemma_squashed_noop(t);
        assert(!(s[s.len() - 2] is EmptyLine && s[s.len() - 1] is EmptyLine));
        assert(t.push(s.last()) =~= s);
    }
}

/// Trimming and squashing a sibling list a second time changes nothing
pub proof fn lemma_list_passes_idempotent(s: Seq<Node>)
    ensures
        ({
            let once = squashed(trimmed_nodes(s));
            squashed(trimmed_nodes(once)) == once
        }),
{
    let once = squashed(trimmed_nodes(s));
    lemma_trim_then_squash_tidy(s);
    assert(blank_lines_tidy(once));
    if once.len() > 0 {
        assert(!(once[0] is EmptyLine));
        assert(blank_run_end(once, 0) == 0);
        assert(!(once[once.len() - 1] is EmptyLine));
        assert(blank_run_start(once, once.len() as int) == once.len());
        assert(once.subrange(0, once.len() as int) =~= once);
    }
    assert(trimmed_nodes(once) == once);
    lemma_squashed_noop(once);
}

/// Quote normalization a second time changes nothing
pub proof fn lemma_normalized_quotes_idempotent(t: Seq<char>)
    ensures
        normalized_quotes(normalized_quotes(t)) == normalized_quotes(t),
{
    let u = normalized_quotes(t);
    if t.len() >= 2 && t[0] == '\'' && !quote_inner(t).contains('"') {
        assert(u[0] == '"');
    }
}

/// The statement with its keyword and value comments moved to the end of its post-comments
pub open spec fn relocated(old: Node, new: Node) -> bool {
    match old {
        Node::Statement(st) => new matches Node::Statement(st2) && st2 == (Statement {
            keyword_comments: st2.keyword_comments,
            value_comments: st2.value_comments,
            post_comments: st2.post_comments,
            ..st
        }) && st2.keyword_comments@.len() == 0 && st2.value_comments@.len() == 0
            && st2.post_comments@ == st.post_comments@ + st.keyword_comments@
            + st.value_comments@,
        _ => new == old,
    }
}

/// Moving keyword and value comments to the post-comments keeps every comment of the statement
pub proof fn lemma_relocation_keeps_comments(old: Node, new: Node)
    requires
        relocated(old, new),
    ensures
        node_comments(new) == node_comments(old),
{
    if let Node::Statement(st) = old {
        let st2 = new->Statement_0;
        lemma_texts_concat(st.post_comments@ + st.keyword_comments@, st.value_comments@);
        lemma_texts_concat(st.post_comments@, st.keyword_comments@);
        lemma_texts_of_no_comments(st2.keyword_comments@);
        lemma_texts_of_no_comments(st2.value_comments@);
        assert(own_comments(st2) =~= own_comments(st));
        assert(statement_comments(st2) =~= statement_comments(st));
    }
}

/// Moves keyword and value comments into the post-comments
///
/// A comment between a keyword and its value, or between a value and its `;` or `{`, has no
/// stable place once the statement is laid out anew, so it goes after the statement.
fn relocate_pre_block_comments(nodes: &mut Vec<Node>)
    ensures
        final(nodes)@.len() == old(nodes)@.len(),
        nodes_comments(final(nodes)@) == nodes_comments(old(nodes)@),
        nodes_shape(final(nodes)@) == nodes_shape(old(nodes)@),
        forall|i: int| 0 <= i < old(nodes)@.len() ==> relocated(old(nodes)@[i], #[trigger] final(nodes)@[i]),
{
    let ghost orig = nodes@;
    let mut taken: Vec<Node> = Vec::new();
    taken.append(nodes);
    let mut rev = reversed(taken);
    while rev.len() > 0
        invariant
            rev@.len() + nodes@.len() == orig.len(),
            forall|j: int| 0 <= j < rev@.len() ==> #[trigger] rev@[j] == orig[orig.len() - 1 - j],
            forall|j: int| 0 <= j < nodes@.len() ==> relocated(orig[j], #[trigger] nodes@[j]),
        decreases rev@.len(),
    {
        let node = rev.pop().unwrap();
        let node = match node {
            Node::Statement(st) => {
                let Statement {
                    keyword,
                    mut keyword_comments,
                    value,
                    mut value_comments,
                    children,
                    mut post_comments,
                } = st;
                post_comments.append(&mut keyword_comments);
                post_comments.append(&mut value_comments);
                Node::Statement(
                    Statement {
                        keyword,
                        keyword_comments,
                        value,
                        value_comments,
                        children,
                        post_comments,
                    },
                )
            },
            other => other,
        };
        nodes.push(node);
    }
    proof {
        assert forall|i: int| 0 <= i < orig.len() implies node_comments(#[trigger] orig[i])
            == node_comments(nodes@[i]) by {
            lemma_relocation_keeps_comments(orig[i], nodes@[i]);
        }
        lemma_pointwise_comments(orig, nodes@);
        assert forall|i: int| 0 <= i < orig.len() implies node_shape(#[trigger] orig[i])
            == node_shape(nodes@[i]) by {
            assert(relocated(orig[i], nodes@[i]));
        }
        lemma_pointwise_shape(orig, nodes@);
    }
}

/// Every sibling list of the tree, at every depth, is tidy in its blank lines
pub open spec fn tidy_tree(nodes: Seq<Node>) -> bool
    decreases nodes,
{
    &&& blank_lines_tidy(nodes)
    &&& forall|i: int|
        0 <= i < nodes.len() ==> match #[trigger] nodes[i] {
            Node::Statement(st) => match st.children {
                Some(c) => tidy_tree(c@),
                None => true,
            },
            _ => true,
        }
}

proof fn lemma_squashed_keeps_blocks_tidy(s: Seq<Node>)
    requires
        forall|j: int| 0 <= j < s.len() ==> block_tidy(#[trigger] s[j]),
    ensures
        forall|i: int| 0 <= i < squashed(s).len() ==> block_tidy(#[trigger] squashed(s)[i]),
    decreases s.len(),
{
    if s.len() > 1 {
        let t = s.drop_last();
        assert forall|j: int| 0 <= j < t.len() implies block_tidy(#[trigger] t[j]) by {
            assert(t[j] == s[j]);
        }
        lemma_squashed_keeps_blocks_tidy(t);
        lemma_squashed_shape(t);
        if !(s.last() is EmptyLine && s[s.len() - 2] is EmptyLine) {
            let q = squashed(t);
            assert forall|i: int| 0 <= i < squashed(s).len() implies block_tidy(
                #[trigger] squashed(s)[i],
            ) by {
                if i < q.len() {
                    assert(squashed(s)[i] == q[i]);
                } else {
                    assert(squashed(s)[i] == s.last());
                }
            }
        }
    }
}

proof fn lemma_same_blank_lines_tidy(a: Seq<Node>, b: Seq<Node>)
    requires
        blank_lines_tidy(a),
        same_blank_lines(a, b),
    ensures
        blank_lines_tidy(b),
{
    if b.len() > 0 {
        assert(a[0] is EmptyLine <==> b[0] is EmptyLine);
        assert(a[a.len() - 1] is EmptyLine <==> b[b.len() - 1] is EmptyLine);
    }
    assert forall|i: int| 0 <= i < b.len() - 1 implies !(#[trigger] b[i] is EmptyLine && b[i
        + 1] is EmptyLine) by {
        assert(a[i] is EmptyLine <==> b[i] is EmptyLine);
        assert(a[i + 1] is EmptyLine <==> b[i + 1] is EmptyLine);
    }
}

proof fn lemma_trim_keeps_blocks_tidy(s: Seq<Node>)
    requires
        forall|j: int| 0 <= j < s.len() ==> block_tidy(#[trigger] s[j]),
    ensures
        forall|j: int| 0 <= j < trimmed_nodes(s).len() ==> block_tidy(#[trigger] trimmed_nodes(s)[j]),
{
    let start = blank_run_end(s, 0);
    lemma_blank_run_end_bounds(s, 0);
    if start < s.len() {
        lemma_blank_run_start_above(s, s.len() as int, start);
        assert forall|j: int| 0 <= j < trimmed_nodes(s).len() implies block_tidy(#[trigger] trimmed_nodes(s)[j]) by {
            assert(trimmed_nodes(s)[j] == s[start + j]);
        }
    }
}

proof fn lemma_relocated_keeps_tidy(a: Seq<Node>, b: Seq<Node>)
    requires
        a.len() == b.len(),
        forall|i: int| 0 <= i < a.len() ==> relocated(a[i], #[trigger] b[i]),
        blank_lines_tidy(a),
        forall|j: int| 0 <= j < a.len() ==> block_tidy(#[trigger] a[j]),
    ensures
        blank_lines_tidy(b),
        forall|j: int| 0 <= j < b.len() ==> block_tidy(#[trigger] b[j]),
{
    assert(same_blank_lines(a, b)) by {
        assert forall|i: int| 0 <= i < b.len() implies (#[trigger] a[i] is EmptyLine <==> b[i] is EmptyLine) by {
            assert(relocated(a[i], b[i]));
        }
    }
    lemma_same_blank_lines_tidy(a, b);
    assert forall|j: int| 0 <= j < b.len() implies block_tidy(#[trigger] b[j]) by {
        assert(relocated(a[j], b[j]));
        assert(block_tidy(a[j]));
    }
}

proof fn lemma_permuted_keeps_tidy(a: Seq<Node>, b: Seq<Node>)
    requires
        statements_permuted(a, b),
        blank_lines_tidy(a),
        forall|j: int| 0 <= j < a.len() ==> block_tidy(#[trigger] a[j]),
    ensures
        blank_lines_tidy(b),
        forall|j: int| 0 <= j < b.len() ==> block_tidy(#[trigger] b[j]),
{
    lemma_same_blank_lines_tidy(a, b);
    let perm = choose|perm: Seq<int>| permuted_by(a, b, perm);
    reveal(permuted_by);
    assert forall|j: int| 0 <= j < b.len() implies block_tidy(#[trigger] b[j]) by {
        assert(b[j] == a[perm[j]]);
    }
}

proof fn lemma_fragment_comments_pointwise(a: Seq<(String, Vec<String>)>, b: Seq<(String, Vec<String>)>)
    requires
        a.len() == b.len(),
        forall|i: int| 0 <= i < a.len() ==> (#[trigger] b[i]).1 == a[i].1,
    ensures
        fragment_comments(a) == fragment_comments(b),
    decreases a.len(),
{
    if a.len() > 0 {
        assert forall|i: int| 0 <= i < a.len() - 1 implies (#[trigger] b.drop_last()[i]).1
            == a.drop_last()[i].1 by {
            assert(b.drop_last()[i] == b[i]);
            assert(a.drop_last()[i] == a[i]);
        }
        lemma_fragment_comments_pointwise(a.drop_last(), b.drop_last());
        assert(b.last().1 == a.last().1);
    }
}

/// Rewriting the quoted strings of a value keeps the node's shape
proof fn lemma_value_mapping_keeps_shape(
    old: Node,
    new: Node,
    f: spec_fn(Seq<char>) -> Seq<char>,
    fragments: bool,
)
    requires
        node_value_mapped(old, new, f, fragments),
    ensures
        node_shape(new) == node_shape(old),
{
    if let Node::Statement(st) = old {
        let st2 = new->Statement_0;
        assert(value_kind(st2.value) == value_kind(st.value));
        assert(statement_shape(st2) == statement_shape(st));
    }
}

/// Rewriting the quoted strings of a value keeps every comment of the node
proof fn lemma_value_mapping_keeps_comments(
    old: Node,
    new: Node,
    f: spec_fn(Seq<char>) -> Seq<char>,
    fragments: bool,
)
    requires
        node_value_mapped(old, new, f, fragments),
    ensures
        node_comments(new) == node_comments(old),
{
    if let Node::Statement(st) = old {
        let st2 = new->Statement_0;
        if let Some(NodeValue::StringConcatenation(parts)) = st.value {
            if fragments {
                let ps = st2.value->Some_0->StringConcatenation_0;
                assert forall|i: int| 0 <= i < parts@.len() implies (#[trigger] ps@[i]).1 == parts@[i].1 by {
                    assert(ps@[i].1 == parts@[i].1);
                }
                lemma_fragment_comments_pointwise(parts@, ps@);
            }
        }
        assert(value_comments_of(st2.value) == value_comments_of(st.value));
        assert(own_comments(st2) == own_comments(st));
        assert(statement_comments(st2) == statement_comments(st));
    }
}

/// The value after the rewrites of a node's quoted value: a quoted string has its quotes
/// normalized, then is stripped, then dedented; each fragment of a concatenation has its quotes
/// normalized; anything else stays
pub open spec fn value_processed(old: NodeValue, new: NodeValue) -> bool {
    match old {
        NodeValue::String(t) => new matches NodeValue::String(u) && u@ == dedented_quotes(
            stripped_quotes(normalized_quotes(t@)),
        ),
        NodeValue::StringConcatenation(parts) => new matches NodeValue::StringConcatenation(ps)
            && ps@.len() == parts@.len() && forall|i: int|
            0 <= i < ps@.len() ==> (#[trigger] ps@[i]).0@ == normalized_quotes(parts@[i].0@)
                && ps@[i].1 == parts@[i].1,
        _ => new == old,
    }
}

/// `new` is `old` after the formatting passes: a statement keeps its keyword and comments, has
/// its value processed, and its block processed as a sibling list under its keyword
pub open spec fn node_processed(old: Node, new: Node, fix: bool) -> bool
    decreases old,
{
    match old {
        Node::Statement(st) => new matches Node::Statement(st2) && st2.keyword == st.keyword
            && st2.keyword_comments == st.keyword_comments && st2.value_comments
            == st.value_comments && st2.post_comments == st.post_comments && match st.value {
            Some(v) => st2.value matches Some(w) && value_processed(v, w),
            None => st2.value is None,
        } && match st.children {
            Some(c) => st2.children matches Some(c2) && list_processed(
                c@,
                c2@,
                Some(st.keyword.spec_text()),
                fix,
            ),
            None => st2.children is None,
        },
        _ => new == old,
    }
}

/// `output` is the sibling list `input` (a block under `parent`, or the top level) after the
/// formatting passes: each node processed, then leading and trailing blank lines trimmed, runs of
/// blank lines squashed, keyword and value comments moved to the post-comments, and, if `fix`
/// asks for it, statements put in canonical order
pub open spec fn list_processed(input: Seq<Node>, output: Seq<Node>, parent: Option<Seq<char>>, fix: bool) -> bool
    decreases input,
{
    exists|mid: Seq<Node>, moved: Seq<Node>|
        #![trigger mid.len(), moved.len()]
        {
            &&& mid.len() == input.len()
            &&& forall|i: int| 0 <= i < input.len() ==> node_processed(#[trigger] input[i], mid[i], fix)
            &&& moved.len() == squashed(trimmed_nodes(mid)).len()
            &&& forall|i: int|
                0 <= i < moved.len() ==> relocated(squashed(trimmed_nodes(mid))[i], #[trigger] moved[i])
            &&& if fix {
                &&& statements_permuted(moved, output)
                &&& sorts_children(parent) ==> statements_in_rank_order(output)
                &&& !sorts_children(parent) ==> output == moved
            } else {
                output == moved
            }
        }
}

/// The node's block, if it has one, is tidy at every depth
pub open spec fn block_tidy(node: Node) -> bool {
    match node {
        Node::Statement(st) => match st.children {
            Some(c) => tidy_tree(c@),
            None => true,
        },
        _ => true,
    }
}

/// Applies the formatting passes to one node: first to its block, then to its quoted value
fn process_node(node: Node, config: &FormatConfig) -> (r: Node)
    ensures
        block_tidy(r),
        node_comments(r) == node_comments(node),
        !config.fix_canonical_order ==> node_shape(r) == node_shape(node),
        node_processed(node, r, config.fix_canonical_order),
    decreases node,
{
    let ghost original = node;
    let node = match node {
        Node::Statement(st) => {
            let ghost whole = st;
            let Statement {
                keyword,
                keyword_comments,
                value,
                value_comments,
                children,
                post_comments,
            } = st;
            let children = match children {
                Some(c) => {
                    proof {
                        assert(decreases_to!(whole => whole.children));
                        assert(decreases_to!(whole.children => c));
                    }
                    Some(process_statements(Some(keyword.text()), c, config))
                },
                None => None,
            };
            let st = Statement {
                keyword,
                keyword_comments,
                value,
                value_comments,
                children,
                post_comments,
            };
            proof {
                assert(own_comments(st) == own_comments(whole));
                assert(statement_comments(st) == statement_comments(whole));
                if !config.fix_canonical_order {
                    assert(statement_shape(st) == statement_shape(whole));
                }
            }
            Node::Statement(st)
        },
        other => other,
    };
    let ghost n0 = node;
    let node = convert_to_double_quotes(node);
    proof {
        lemma_value_mapping_keeps_comments(n0, node, |t: Seq<char>| normalized_quotes(t), true);
        lemma_value_mapping_keeps_shape(n0, node, |t: Seq<char>| normalized_quotes(t), true);
    }
    let ghost n1 = node;
    let node = strip_string(node);
    proof {
        lemma_value_mapping_keeps_comments(n1, node, |t: Seq<char>| stripped_quotes(t), false);
        lemma_value_mapping_keeps_shape(n1, node, |t: Seq<char>| stripped_quotes(t), false);
    }
    let ghost n2 = node;
    let r = dedent_multilined_string(node);
    proof {
        lemma_value_mapping_keeps_comments(n2, r, |t: Seq<char>| dedented_quotes(t), false);
        lemma_value_mapping_keeps_shape(n2, r, |t: Seq<char>| dedented_quotes(t), false);
        if let Node::Statement(st) = original {
            let s0 = n0->Statement_0;
            let s1 = n1->Statement_0;
            let s2 = n2->Statement_0;
            let s3 = r->Statement_0;
            assert(s0.value == st.value);
            match st.value {
                Some(NodeValue::String(t)) => {
                    let u1 = s1.value->Some_0->String_0;
                    let u2 = s2.value->Some_0->String_0;
                    let u3 = s3.value->Some_0->String_0;
                    assert(u1@ == normalized_quotes(t@));
                    assert(u2@ == stripped_quotes(u1@));
                    assert(u3@ == dedented_quotes(u2@));
                },
                Some(NodeValue::StringConcatenation(parts)) => {
                    assert(s2.value == s1.value);
                    assert(s3.value == s2.value);
                },
                _ => {},
            }
            assert(node_processed(original, r, config.fix_canonical_order));
        }
    }
    r
}

/// Applies the formatting passes to a sibling list and, before that, to every node in it
///
/// Each node first has its block processed, then its quoted value normalized, stripped and
/// dedented. Then the list loses its leading and trailing blank lines, runs of blank lines
/// become one, keyword and value comments move to the post-comments, and, if the configuration
/// asks for it, statements are put in canonical order.
#[verifier::loop_isolation(false)]
pub fn process_statements(parent_node_name: Option<&str>, statements: Vec<Node>, config: &FormatConfig) -> (r: Vec<Node>)
    ensures
        list_processed(
            statements@,
            r@,
            match parent_node_name {
                Some(p) => Some(p@),
                None => None,
            },
            config.fix_canonical_order,
        ),
        tidy_tree(r@),
        nodes_comments(r@) == nodes_comments(statements@),
        !config.fix_canonical_order ==> nodes_shape(r@) == nodes_shape(statements@),
    decreases statements,
{
    broadcast use vstd::std_specs::vec::group_vec_axioms;

    let ghost orig = statements;
    let mut rev = reversed(statements);
    let mut out: Vec<Node> = Vec::new();
    while rev.len() > 0
        invariant
            rev@.len() <= orig@.len(),
            forall|j: int| 0 <= j < rev@.len() ==> #[trigger] rev@[j] == orig@[orig@.len() - 1 - j],
            forall|j: int| 0 <= j < out@.len() ==> block_tidy(#[trigger] out@[j]),
            out@.len() + rev@.len() == orig@.len(),
            nodes_comments(out@) == nodes_comments(orig@.take(out@.len() as int)),
            !config.fix_canonical_order ==> nodes_shape(out@) == nodes_shape(
                orig@.take(out@.len() as int),
            ),
            forall|j: int|
                0 <= j < out@.len() ==> node_processed(orig@[j], #[trigger] out@[j], config.fix_canonical_order),
        decreases rev@.len(),
    {
        let ghost k = orig@.len() - rev@.len();
        let node = rev.pop().unwrap();
        proof {
            assert(node == orig@[k]);
            assert(decreases_to!(orig => orig@));
            assert(decreases_to!(orig@ => orig@[k]));
            assert(decreases_to!(orig => node));
        }
        let ghost before = out@;
        out.push(process_node(node, config));
        proof {
            assert(out@.drop_last() =~= before);
            assert(orig@.take(k + 1).drop_last() =~= orig@.take(k));
        }
    }
    proof {
        assert(orig@.take(orig@.len() as int) =~= orig@);
    }
    let ghost before_trim = out@;
    trim_line_breaks(&mut out);
    proof {
        lemma_trim_keeps_blocks_tidy(before_trim);
    }
    let ghost before_squash = out@;
    squash_line_breaks(&mut out);
    proof {
        lemma_trim_then_squash_tidy(before_trim);
        lemma_squashed_keeps_blocks_tidy(before_squash);
    }
    let ghost before_relocate = out@;
    relocate_pre_block_comments(&mut out);
    proof {
        lemma_relocated_keeps_tidy(before_relocate, out@);
    }
    let ghost moved = out@;
    if config.fix_canonical_order {
        let ghost before_sort = out@;
        sort_statements(parent_node_name, &mut out);
        proof {
            lemma_permuted_keeps_tidy(before_sort, out@);
        }
    }
    assert(tidy_tree(out@));
    proof {
        let parent = match parent_node_name {
            Some(p) => Some(p@),
            None => None,
        };
        assert(orig@.len() == before_trim.len());
        assert(before_relocate == squashed(trimmed_nodes(before_trim)));
        assert(moved.len() == squashed(trimmed_nodes(before_trim)).len());
        assert forall|i: int| 0 <= i < orig@.len() implies node_processed(
            #[trigger] orig@[i],
            before_trim[i],
            config.fix_canonical_order,
        ) by {}
        assert(list_processed(orig@, out@, parent, config.fix_canonical_order));
    }
    out
}

// Printing

/// Number of columns a text takes: one per character
pub open spec fn text_len(t: Seq<char>) -> int {
    t.len() as int
}

/// `n` spaces
pub open spec fn spaces(n: int) -> Seq<char> {
    Seq::new(n as nat, |i: int| ' ')
}

/// Indentation of a line at `depth`
pub open spec fn indentation(config: &FormatConfig, depth: int) -> Seq<char> {
    spaces(depth * config.spec_indent_width())
}


/// Depth of the children of a block at `depth`
pub open spec fn child_depth(depth: u16) -> u16 {
    if depth < u16::MAX {
        (depth + 1) as u16
    } else {
        depth
    }
}

/// A value printed after the keyword that ends at column `line_pos`: on the same line after a
/// space if that line, with its terminator, still fits the width; else alone on a new line one
/// level deeper
pub open spec fn simple_value(config: &FormatConfig, depth: int, line_pos: int, t: Seq<char>) -> Seq<char> {
    if line_pos + text_len(t) + 2 > config.line_length {
        seq!['\n'] + indentation(config, depth + 1) + t
    } else {
        seq![' '] + t
    }
}

/// Each comment after a space
pub open spec fn comments_text(cs: Seq<String>) -> Seq<char>
    decreases cs.len(),
{
    if cs.len() == 0 {
        Seq::empty()
    } else {
        comments_text(cs.drop_last()) + seq![' '] + cs.last()@
    }
}

/// The lines after the first of a multi-line string, each on a new line; a non-empty one is
/// indented to the column just after the opening quote
pub open spec fn continuation_lines(config: &FormatConfig, depth: int, ls: Seq<Seq<char>>) -> Seq<char>
    decreases ls.len(),
{
    if ls.len() == 0 {
        Seq::empty()
    } else {
        let l = ls.last();
        continuation_lines(config, depth, ls.drop_last()) + seq!['\n'] + if l.len() > 0 {
            indentation(config, depth) + spaces(config.spec_indent_width() + 1int) + l
        } else {
            Seq::empty()
        }
    }
}

/// A multi-line string: on a new line one level deeper, later lines aligned after the quote
pub open spec fn multiline_value(config: &FormatConfig, depth: int, t: Seq<char>) -> Seq<char> {
    let ls = split_lines(t);
    if ls.len() == 0 {
        seq!['\n'] + indentation(config, depth + 1)
    } else {
        seq!['\n'] + indentation(config, depth + 1) + ls[0] + continuation_lines(config, depth, ls.skip(1))
    }
}

/// The fragments of a concatenation after the first, each on a new line, with `+ ` aligned so
/// that the fragments start in the column of the first one
pub open spec fn concat_rest(config: &FormatConfig, depth: int, pad: int, parts: Seq<(String, Vec<String>)>) -> Seq<char>
    decreases parts.len(),
{
    if parts.len() == 0 {
        Seq::empty()
    } else {
        let p = parts.last();
        concat_rest(config, depth, pad, parts.drop_last()) + seq!['\n'] + indentation(config, depth)
            + spaces(pad) + seq![' ', '+', ' '] + p.0@ + comments_text(p.1@)
    }
}

/// How a statement's value is printed after its keyword `kw`
pub open spec fn value_text(config: &FormatConfig, depth: int, kw: Seq<char>, v: NodeValue) -> Seq<char> {
    let line_pos = depth * config.spec_indent_width() + text_len(kw);
    match v {
        NodeValue::String(t) => if t@.contains('\n') {
            multiline_value(config, depth, t@)
        } else {
            simple_value(config, depth, line_pos, t@)
        },
        NodeValue::StringConcatenation(parts) => {
            let pad = if text_len(kw) >= 2 { text_len(kw) - 2 } else { 0 };
            if parts@.len() == 0 {
                Seq::empty()
            } else {
                seq![' '] + parts@[0].0@ + comments_text(parts@[0].1@) + concat_rest(
                    config,
                    depth,
                    pad,
                    parts@.skip(1),
                )
            }
        },
        NodeValue::Number(t) => simple_value(config, depth, line_pos, t@),
        NodeValue::Date(t) => simple_value(config, depth, line_pos, t@),
        NodeValue::Other(t) => simple_value(config, depth, line_pos, t@),
    }
}

/// The text of a statement at `depth`, up to and including its final line break; a block's
/// children follow one level deeper, then its closing brace
pub open spec fn printed_statement(config: &FormatConfig, depth: u16, st: Statement) -> Seq<char>
    decreases st,
{
    let kw = st.keyword.spec_text();
    let head = indentation(config, depth as int) + kw + comments_text(st.keyword_comments@)
        + match st.value {
        Some(v) => value_text(config, depth as int, kw, v) + comments_text(st.value_comments@),
        None => Seq::empty(),
    };
    match st.children {
        Some(c) => head + seq![' ', '{'] + comments_text(st.post_comments@) + seq!['\n']
            + printed_nodes(config, child_depth(depth), c@) + indentation(config, depth as int)
            + seq!['}', '\n'],
        None => head + seq![';'] + comments_text(st.post_comments@) + seq!['\n'],
    }
}

/// The text of a node at `depth`, up to and including its final line break
pub open spec fn printed_node(config: &FormatConfig, depth: u16, node: Node) -> Seq<char>
    decreases node,
{
    match node {
        Node::Statement(st) => printed_statement(config, depth, st),
        Node::Comment(text) => indentation(config, depth as int) + text@ + seq!['\n'],
        Node::EmptyLine(_) => seq!['\n'],
    }
}

/// The texts of the nodes, one after the other
pub open spec fn printed_nodes(config: &FormatConfig, depth: u16, nodes: Seq<Node>) -> Seq<char>
    decreases nodes,
{
    if nodes.len() == 0 {
        Seq::empty()
    } else {
        printed_nodes(config, depth, nodes.drop_last()) + printed_node(config, depth, nodes.last())
    }
}

fn push_chars(out: &mut String, cs: &[char])
    ensures
        final(out)@ == old(out)@ + cs@,
{
    let mut i: usize = 0;
    while i < cs.len()
        invariant
            i <= cs@.len(),
            out@ == old(out)@ + cs@.subrange(0, i as int),
        decreases cs@.len() - i,
    {
        push_char(out, cs[i]);
        i = i + 1;
        proof {
            assert(out@ =~= old(out)@ + cs@.subrange(0, i as int));
        }
    }
    proof {
        assert(cs@.subrange(0, cs@.len() as int) =~= cs@);
    }
}

fn write_spaces(out: &mut String, n: usize)
    ensures
        final(out)@ == old(out)@ + spaces(n as int),
{
    let mut i: usize = 0;
    while i < n
        invariant
            i <= n,
            out@ == old(out)@ + spaces(i as int),
        decreases n - i,
    {
        push_char(out, ' ');
        i = i + 1;
        proof {
            assert(out@ =~= old(out)@ + spaces(i as int));
        }
    }
}

fn write_indent(out: &mut String, config: &FormatConfig, depth: usize)
    requires
        depth <= u16::MAX + 1,
    ensures
        final(out)@ == old(out)@ + indentation(config, depth as int),
{
    let width = config.indent_width() as usize;
    proof {
        assert(depth * width <= 70000 * 256) by (nonlinear_arith)
            requires
                depth <= u16::MAX + 1,
                width <= 255,
        ;
    }
    write_spaces(out, depth * width);
}

fn write_comments(out: &mut String, comments: &Vec<String>)
    ensures
        final(out)@ == old(out)@ + comments_text(comments@),
{
    let mut i: usize = 0;
    while i < comments.len()
        invariant
            i <= comments@.len(),
            out@ == old(out)@ + comments_text(comments@.subrange(0, i as int)),
        decreases comments@.len() - i,
    {
        push_char(out, ' ');
        push_str(out, comments[i].as_str());
        proof {
            let next = comments@.subrange(0, i + 1);
            assert(next.drop_last() =~= comments@.subrange(0, i as int));
        }
        i = i + 1;
    }
    proof {
        assert(comments@.subrange(0, comments@.len() as int) =~= comments@);
    }
}

/// Writes a one-line value after a keyword that ends at column `line_pos`, wrapping it to the
/// next line when the statement would not fit the width
fn write_simple_value(out: &mut String, config: &FormatConfig, depth: u16, line_pos: usize, text: &str)
    ensures
        final(out)@ == old(out)@ + simple_value(config, depth as int, line_pos as int, text@),
{
    let len = chars_of(text).len();
    let max = config.line_length as usize;
    let wraps = line_pos > max || max - line_pos < 2 || len > max - line_pos - 2;
    assert(len == text_len(text@));
    assert(wraps == (line_pos + text_len(text@) + 2 > config.line_length));
    if wraps {
        push_char(out, '\n');
        write_indent(out, config, depth as usize + 1);
    } else {
        push_char(out, ' ');
    }
    push_str(out, text);
    proof {
        if wraps {
            assert(out@ =~= old(out)@ + (seq!['\n'] + indentation(config, depth + 1) + text@));
        } else {
            assert(out@ =~= old(out)@ + (seq![' '] + text@));
        }
    }
}

fn write_multiline_string(out: &mut String, config: &FormatConfig, depth: u16, text: &str)
    ensures
        final(out)@ == old(out)@ + multiline_value(config, depth as int, text@),
{
    let chars = chars_of(text);
    let ls = lines(chars.as_slice());
    let ghost views = ls@.map_values(|l: Vec<char>| l@);
    push_char(out, '\n');
    write_indent(out, config, depth as usize + 1);
    if ls.len() == 0 {
        return;
    }
    push_chars(out, ls[0].as_slice());
    let ghost base = out@;
    let extra = config.indent_width() as usize + 1;
    let mut i: usize = 1;
    while i < ls.len()
        invariant
            1 <= i <= ls@.len(),
            views == ls@.map_values(|l: Vec<char>| l@),
            views == split_lines(text@),
            extra == config.spec_indent_width() + 1,
            out@ == base + continuation_lines(config, depth as int, views.subrange(1, i as int)),
        decreases ls@.len() - i,
    {
        push_char(out, '\n');
        if ls[i].len() > 0 {
            write_indent(out, config, depth as usize);
            write_spaces(out, extra);
        }
        push_chars(out, ls[i].as_slice());
        proof {
            let next = views.subrange(1, i + 1);
            assert(next.drop_last() =~= views.subrange(1, i as int));
            assert(next.last() == ls@[i as int]@);
        }
        i = i + 1;
        proof {
            if views[i - 1].len() == 0 {
                assert(out@ =~= base + continuation_lines(config, depth as int, views.subrange(1, i as int)));
            } else {
                assert(out@ =~= base + continuation_lines(config, depth as int, views.subrange(1, i as int)));
            }
        }
    }
    proof {
        assert(views.subrange(1, ls@.len() as int) =~= views.skip(1));
        assert(views[0] == ls@[0]@);
    }
}

fn write_concatenation(out: &mut String, config: &FormatConfig, depth: u16, kw_len: usize, parts: &Vec<(String, Vec<String>)>)
    requires
        parts@.len() >= 1,
    ensures
        final(out)@ == old(out)@ + seq![' '] + parts@[0].0@ + comments_text(parts@[0].1@)
            + concat_rest(config, depth as int, if kw_len >= 2 { kw_len - 2 } else { 0 }, parts@.skip(1)),
{
    let pad: usize = if kw_len >= 2 { kw_len - 2 } else { 0 };
    // The first string stays on the keyword's line
    push_char(out, ' ');
    push_str(out, parts[0].0.as_str());
    write_comments(out, &parts[0].1);
    let ghost base = out@;
    // The rest go on new lines, aligned under the first one
    let mut i: usize = 1;
    while i < parts.len()
        invariant
            1 <= i <= parts@.len(),
            out@ == base + concat_rest(config, depth as int, pad as int, parts@.subrange(1, i as int)),
        decreases parts@.len() - i,
    {
        push_char(out, '\n');
        write_indent(out, config, depth as usize);
        write_spaces(out, pad);
        push_str(out, " + ");
        push_str(out, parts[i].0.as_str());
        write_comments(out, &parts[i].1);
        proof {
            reveal_strlit(" + ");
            let next = parts@.subrange(1, i + 1);
            assert(next.drop_last() =~= parts@.subrange(1, i as int));
        }
        i = i + 1;
        proof {
            assert(out@ =~= base + concat_rest(config, depth as int, pad as int, parts@.subrange(1, i as int)));
        }
    }
    proof {
        assert(parts@.subrange(1, parts@.len() as int) =~= parts@.skip(1));
    }
}

fn contains_line_feed(text: &str) -> (r: bool)
    ensures
        r == text@.contains('\n'),
{
    let chars = chars_of(text);
    let mut i: usize = 0;
    while i < chars.len()
        invariant
            i <= chars@.len(),
            chars@ == text@,
            forall|j: int| 0 <= j < i ==> chars@[j] != '\n',
        decreases chars@.len() - i,
    {
        if chars[i] == '\n' {
            return true;
        }
        i = i + 1;
    }
    false
}

/// Writes a statement's value after its keyword `kw`, then its value comments
fn write_value(out: &mut String, config: &FormatConfig, depth: u16, kw: &str, value: &NodeValue)
    ensures
        final(out)@ == old(out)@ + value_text(config, depth as int, kw@, *value),
{
    let kw_len = chars_of(kw).len();
    let width = config.indent_width() as usize;
    proof {
        assert(width * depth <= 255 * 65535) by (nonlinear_arith)
            requires
                width <= 255,
                depth <= 65535,
        ;
    }
    let base = width * depth as usize;
    let line_pos = if kw_len <= usize::MAX - base {
        base + kw_len
    } else {
        usize::MAX
    };
    proof {
        let exact = depth * config.spec_indent_width() + text_len(kw@);
        assert(base == depth * config.spec_indent_width()) by (nonlinear_arith)
            requires
                base == width * depth,
                width == config.spec_indent_width(),
        ;
        assert forall|t: Seq<char>| #[trigger] simple_value(config, depth as int, line_pos as int, t)
            == simple_value(config, depth as int, exact, t) by {
            if line_pos != exact {
                assert(exact > usize::MAX);
            }
        }
    }
    match value {
        NodeValue::Date(text) => write_simple_value(out, config, depth, line_pos, text.as_str()),
        NodeValue::Number(text) => write_simple_value(out, config, depth, line_pos, text.as_str()),
        NodeValue::Other(text) => write_simple_value(out, config, depth, line_pos, text.as_str()),
        NodeValue::String(text) => {
            if contains_line_feed(text.as_str()) {
                // A multi-line string always starts on a line of its own
                write_multiline_string(out, config, depth, text.as_str());
            } else {
                write_simple_value(out, config, depth, line_pos, text.as_str());
            }
        },
        NodeValue::StringConcatenation(parts) => {
            if parts.len() > 0 {
                write_concatenation(out, config, depth, kw_len, parts);
            }
        },
    }
}

/// Writes the nodes one after the other at `depth`
fn write_nodes(out: &mut String, nodes: &Vec<Node>, config: &FormatConfig, depth: u16)
    ensures
        final(out)@ == old(out)@ + printed_nodes(config, depth, nodes@),
    decreases nodes,
{
    broadcast use vstd::std_specs::vec::group_vec_axioms;

    let mut i: usize = 0;
    while i < nodes.len()
        invariant
            i <= nodes@.len(),
            out@ == old(out)@ + printed_nodes(config, depth, nodes@.subrange(0, i as int)),
        decreases nodes@.len() - i,
    {
        proof {
            assert(decreases_to!(*nodes => nodes@));
            assert(decreases_to!(nodes@ => nodes@[i as int]));
        }
        write_node(out, &nodes[i], config, depth);
        proof {
            let part = nodes@.subrange(0, i + 1);
            assert(part.drop_last() =~= nodes@.subrange(0, i as int));
        }
        i = i + 1;
    }
    proof {
        assert(nodes@.subrange(0, nodes@.len() as int) =~= nodes@);
    }
}

/// Text of a statement up to its value comments
pub open spec fn statement_head(config: &FormatConfig, depth: u16, st: Statement) -> Seq<char> {
    let kw = st.keyword.spec_text();
    indentation(config, depth as int) + kw + comments_text(st.keyword_comments@) + match st.value {
        Some(v) => value_text(config, depth as int, kw, v) + comments_text(st.value_comments@),
        None => Seq::empty(),
    }
}

fn write_statement_head(out: &mut String, st: &Statement, config: &FormatConfig, depth: u16)
    ensures
        final(out)@ == old(out)@ + statement_head(config, depth, *st),
{
    write_indent(out, config, depth as usize);
    let kw = st.keyword.text();
    push_str(out, kw);
    write_comments(out, &st.keyword_comments);
    let ghost before_value = out@;
    match &st.value {
        Some(v) => {
            write_value(out, config, depth, kw, v);
            write_comments(out, &st.value_comments);
            assert(out@ =~= before_value + (value_text(config, depth as int, kw@, *v) + comments_text(
                st.value_comments@,
            )));
        },
        None => {
            assert(out@ =~= before_value + Seq::<char>::empty());
        },
    }
    assert(out@ =~= old(out)@ + statement_head(config, depth, *st));
}

/// Writes a statement at `depth`, and a block's children one level deeper
#[verifier::rlimit(40)]
fn write_statement(out: &mut String, st: &Statement, config: &FormatConfig, depth: u16)
    ensures
        final(out)@ == old(out)@ + printed_statement(config, depth, *st),
    decreases st,
{
    write_statement_head(out, st, config, depth);
    let ghost head = out@;
    match &st.children {
        Some(children) => {
            push_str(out, " {");
            write_comments(out, &st.post_comments);
            push_char(out, '\n');
            let ghost opened = out@;
            let next = if depth < u16::MAX {
                depth + 1
            } else {
                depth
            };
            proof {
                reveal_strlit(" {");
                assert(opened =~= head + (seq![' ', '{'] + comments_text(st.post_comments@) + seq!['\n']));
                assert(decreases_to!(*st => st.children));
                assert(decreases_to!(st.children => *children));
            }
            write_nodes(out, children, config, next);
            let ghost inner = out@;
            write_indent(out, config, depth as usize);
            push_str(out, "}\n");
            proof {
                reveal_strlit("}\n");
                assert(out@ =~= inner + (indentation(config, depth as int) + seq!['}', '\n']));
                assert(out@ =~= old(out)@ + printed_statement(config, depth, *st));
            }
        },
        None => {
            push_char(out, ';');
            write_comments(out, &st.post_comments);
            push_char(out, '\n');
            proof {
                assert(out@ =~= old(out)@ + printed_statement(config, depth, *st));
            }
        },
    }
}

/// Writes a node at `depth`
///
/// Every statement ends with a line break. Comments are indented and kept as they are; a blank
/// line is a line break alone.
pub fn write_node(out: &mut String, node: &Node, config: &FormatConfig, depth: u16)
    ensures
        final(out)@ == old(out)@ + printed_node(config, depth, *node),
    decreases node,
{
    match node {
        Node::Statement(st) => {
            write_statement(out, st, config, depth);
        },
        Node::Comment(text) => {
            write_indent(out, config, depth as usize);
            push_str(out, text.as_str());
            push_char(out, '\n');
            proof {
                assert(out@ =~= old(out)@ + printed_node(config, depth, *node));
            }
        },
        Node::EmptyLine(_) => {
            push_char(out, '\n');
        },
    }
}

/// Formats a buffer of YANG source
///
/// The buffer is parsed, the formatting passes run over the tree, and the tree is printed. The
/// printed tree holds exactly the comments of the buffer, and its blank lines are tidy.
pub fn format_yang(buffer: &[u8], config: &FormatConfig) -> (r: Result<String, Error>)
    ensures
        match spec_parse(buffer@) {
            Ok(()) => r is Ok,
            Err(f) => (r matches Err(Error::ParseError(e)) && failure_matches(e, f)),
        },
        r matches Ok(text) ==> exists|tree: Seq<Node>, nodes: Seq<Node>|
            {
                &&& parsed_tree(buffer@, tree)
                &&& list_processed(tree, nodes, None, config.fix_canonical_order)
                &&& text@ == printed_nodes(config, 0, nodes)
                &&& nodes_comments(nodes) == nodes_comments(tree)
                &&& tidy_tree(nodes)
            },
{
    let tree = match parse(buffer) {
        Ok(tree) => tree,
        Err(e) => {
            return Err(Error::ParseError(e));
        },
    };
    let ghost input = tree.children@;
    let children = process_statements(None, tree.children, config);
    let mut out = String::new();
    write_nodes(&mut out, &children, config, 0);
    proof {
        assert(parsed_tree(buffer@, input));
        assert(list_processed(input, children@, None, config.fix_canonical_order));
    }
    Ok(out)
}

} // verus!
