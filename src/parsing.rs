//! Builds the syntax tree from the token stream: one statement at a time, with an explicit stack
//! of open blocks instead of recursion.
use vstd::prelude::*;

use crate::lexing::{scan, spec_scan, tokens_match, LexError, ScanIterator, Token, TokenType};
use vstd::utf8::decode_utf8;
use crate::comments::{
    fragment_comments, lemma_texts_of_no_comments, lemma_texts_push, node_comments, nodes_comments, own_comments,
    statement_comments, texts, token_comment, token_comments, value_comments_of,
};
use crate::node::{Node, NodeValue, RootNode, Statement, StatementKeyword};
use vstd::multiset::Multiset;

verus! {

/// A parse failure; every position is a byte offset into the parsed buffer
#[derive(Debug, PartialEq, Eq)]
pub enum ParseError {
    Lex(LexError),
    /// A token that the statement cannot take where it stands; `expected` says what could
    UnexpectedToken { position: usize, found: String, expected: String },
    /// The input ended inside a statement; `position` is where its last token started
    UnexpectedEndOfInput { position: usize },
    UnexpectedClosingBrace { position: usize },
    /// The input ended inside a block; `position` is where the last token started
    UnclosedBlock { position: usize },
    /// A `+` after a value that is not a quoted string
    InvalidConcatenation { position: usize },
}

impl ParseError {
    /// Byte offset that the error refers to
    pub fn position(&self) -> (r: usize)
        ensures
            r == self.spec_position(),
    {
        match self {
            ParseError::Lex(e) => e.position(),
            ParseError::UnexpectedToken { position, .. } => *position,
            ParseError::UnexpectedEndOfInput { position } => *position,
            ParseError::UnexpectedClosingBrace { position } => *position,
            ParseError::UnclosedBlock { position } => *position,
            ParseError::InvalidConcatenation { position } => *position,
        }
    }

    pub open spec fn spec_position(&self) -> usize {
        match self {
            ParseError::Lex(e) => e.spec_position(),
            ParseError::UnexpectedToken { position, .. } => *position,
            ParseError::UnexpectedEndOfInput { position } => *position,
            ParseError::UnexpectedClosingBrace { position } => *position,
            ParseError::UnclosedBlock { position } => *position,
            ParseError::InvalidConcatenation { position } => *position,
        }
    }
}

/// What is left of a token stream: tokens, and one more step for a pending error
pub open spec fn stream_len(ts: &ScanIterator) -> nat {
    ts.tokens().len() + if ts.error() is Some {
        1nat
    } else {
        0nat
    }
}

/// `after` is `before` with its first `n` tokens, and nothing else, taken
pub open spec fn consumed(before: &ScanIterator, after: &ScanIterator, n: int) -> bool {
    &&& 0 <= n <= before.tokens().len()
    &&& after.tokens() == before.tokens().skip(n)
    &&& after.error() == before.error()
}

/// A value as the parser builds it: a quoted string run has two fragments or more
pub open spec fn value_wf(v: NodeValue) -> bool {
    v matches NodeValue::StringConcatenation(parts) ==> parts@.len() >= 2
}

/// Whether the token at the front of the stream could be consumed by `parse_statement` without
/// an error of its own
pub open spec fn starts_statement(ts: &ScanIterator) -> bool {
    ts.tokens().len() > 0 && ts.tokens()[0].token_type == TokenType::Other
}

/// A `;` or `{`: the token that ends a statement
pub open spec fn is_terminator(t: Token) -> bool {
    t.token_type == TokenType::SemiColon || t.token_type == TokenType::OpenCurlyBrace
}

/// Whitespace, a line break or a comment
pub open spec fn is_trivia(t: Token) -> bool {
    t.token_type == TokenType::WhiteSpace || t.token_type == TokenType::LineBreak || t.token_type
        == TokenType::Comment
}

/// Whitespace or a comment: what may follow a statement on its line
pub open spec fn is_same_line_trivia(t: Token) -> bool {
    t.token_type == TokenType::WhiteSpace || t.token_type == TokenType::Comment
}

/// The texts of the comment tokens among `ts`, in order
pub open spec fn comment_seq(ts: Seq<Token>) -> Seq<Seq<char>>
    decreases ts.len(),
{
    if ts.len() == 0 {
        Seq::empty()
    } else {
        comment_seq(ts.drop_last()) + if ts.last().token_type == TokenType::Comment {
            seq![ts.last().text@]
        } else {
            Seq::empty()
        }
    }
}

/// The texts of the quoted-string tokens among `ts`, in order
pub open spec fn string_seq(ts: Seq<Token>) -> Seq<Seq<char>>
    decreases ts.len(),
{
    if ts.len() == 0 {
        Seq::empty()
    } else {
        string_seq(ts.drop_last()) + if ts.last().token_type == TokenType::String {
            seq![ts.last().text@]
        } else {
            Seq::empty()
        }
    }
}

/// The texts of the fragments of a concatenation
pub open spec fn fragment_texts(parts: Seq<(String, Vec<String>)>) -> Seq<Seq<char>> {
    parts.map_values(|p: (String, Vec<String>)| p.0@)
}

/// The texts of a list of comments
pub open spec fn comment_views(cs: Seq<String>) -> Seq<Seq<char>> {
    cs.map_values(|c: String| c@)
}

/// `ts[j]` is the statement's value token: the first token after the keyword that is not
/// whitespace, a line break or a comment, before the terminator at `t`
pub open spec fn value_token_at(ts: Seq<Token>, j: int, t: int) -> bool {
    &&& 1 <= j < t
    &&& !is_trivia(ts[j])
    &&& forall|k: int| 1 <= k < j ==> is_trivia(#[trigger] ts[k])
}

/// Keyword comments, value and value comments as they lie in the tokens: the comments between
/// keyword and value (or terminator) are keyword comments; a value that is not a concatenation
/// is its token's, and the comments after it are value comments; the fragments of a
/// concatenation are the quoted strings from the value token on, in order
#[verifier::opaque]
pub open spec fn parts_in_tokens(
    ts: Seq<Token>,
    kc: Seq<String>,
    value: Option<NodeValue>,
    vc: Seq<String>,
    t: int,
) -> bool {
    match value {
        None => comment_views(kc) == comment_seq(ts.subrange(1, t)) && vc.len() == 0,
        Some(v) => exists|j: int|
            #![trigger value_token_at(ts, j, t)]
            {
                &&& value_token_at(ts, j, t)
                &&& comment_views(kc) == comment_seq(ts.subrange(1, j))
                &&& !(v is StringConcatenation) ==> v.from_token_spec(&ts[j]) && comment_views(vc)
                    == comment_seq(ts.subrange(j + 1, t))
                &&& v matches NodeValue::StringConcatenation(parts) ==> fragment_texts(parts@)
                    == string_seq(ts.subrange(j, t))
            },
    }
}

/// How a statement lies in the tokens `ts`: the keyword first, its first `;` or `{` at `t`,
/// then same-line whitespace and comments up to `n`, which are its post-comments; it has a value
/// exactly when something other than whitespace, line breaks and comments stands between keyword
/// and terminator
#[verifier::opaque]
pub open spec fn statement_extent(ts: Seq<Token>, st: Statement, opens_block: bool, t: int, n: int) -> bool {
    &&& 1 <= t < n <= ts.len()
    &&& is_terminator(ts[t])
    &&& forall|k: int| 1 <= k < t ==> !is_terminator(#[trigger] ts[k])
    &&& opens_block == (ts[t].token_type == TokenType::OpenCurlyBrace)
    &&& st.value is None <==> forall|k: int| 1 <= k < t ==> is_trivia(#[trigger] ts[k])
    &&& forall|k: int| t < k < n ==> is_same_line_trivia(#[trigger] ts[k])
    &&& st.post_comments@.map_values(|c: String| c@) == comment_seq(ts.subrange(t + 1, n))
    &&& parts_in_tokens(ts, st.keyword_comments@, st.value, st.value_comments@, t)
}

/// Where the statement automaton stands: after the keyword, after a value (quoted or not), or
/// in a run of quoted strings after or before a `+`
pub enum StatementPhase {
    Keyword,
    Value(bool),
    AfterPlus,
    BeforePlus,
}

/// A parse failure as the automata state it: its kind and position
pub enum Failure {
    Lex(LexError),
    UnexpectedToken(usize),
    EndOfInput(usize),
    InvalidConcatenation(usize),
    UnexpectedClosingBrace(usize),
    UnclosedBlock(usize),
}

/// How reading a statement ends: at the terminator with this index, or with a failure
pub enum StatementOutcome {
    Ends(int),
    Fails(Failure),
}

/// The error is the failure the automaton names
pub open spec fn failure_matches(e: ParseError, f: Failure) -> bool {
    match f {
        Failure::Lex(x) => e == ParseError::Lex(x),
        Failure::UnexpectedToken(p) => e matches ParseError::UnexpectedToken { position, .. }
            && position == p,
        Failure::EndOfInput(p) => e == ParseError::UnexpectedEndOfInput { position: p },
        Failure::InvalidConcatenation(p) => e == ParseError::InvalidConcatenation { position: p },
        Failure::UnexpectedClosingBrace(p) => e == ParseError::UnexpectedClosingBrace {
            position: p,
        },
        Failure::UnclosedBlock(p) => e == ParseError::UnclosedBlock { position: p },
    }
}

/// The kinds and spans of tokens, as (kind, first byte, one past the last byte)
pub open spec fn shapes(ts: Seq<Token>) -> Seq<(TokenType, int, int)> {
    ts.map_values(|t: Token| t.shape())
}

pub open spec fn trivia_kind(k: TokenType) -> bool {
    k == TokenType::WhiteSpace || k == TokenType::LineBreak || k == TokenType::Comment
}

pub open spec fn terminator_kind(k: TokenType) -> bool {
    k == TokenType::SemiColon || k == TokenType::OpenCurlyBrace
}

pub open spec fn same_line_kind(k: TokenType) -> bool {
    k == TokenType::WhiteSpace || k == TokenType::Comment
}

/// The statement automaton over token kinds, from token `i` on in phase `phase`; `err` is the
/// lexical error that follows the tokens, if any
pub open spec fn statement_run(ts: Seq<(TokenType, int, int)>, err: Option<LexError>, i: int, phase: StatementPhase) -> StatementOutcome
    decreases ts.len() - i,
{
    if i < 1 || i >= ts.len() {
        match err {
            Some(e) => StatementOutcome::Fails(Failure::Lex(e)),
            None => StatementOutcome::Fails(
                Failure::EndOfInput(
                    if 1 <= i <= ts.len() {
                        ts[i - 1].1 as usize
                    } else {
                        0
                    },
                ),
            ),
        }
    } else {
        let ty = ts[i].0;
        let pos = ts[i].1 as usize;
        match phase {
            StatementPhase::Keyword => if trivia_kind(ty) {
                statement_run(ts, err, i + 1, StatementPhase::Keyword)
            } else if terminator_kind(ty) {
                StatementOutcome::Ends(i)
            } else {
                statement_run(ts, err, i + 1, StatementPhase::Value(ty == TokenType::String))
            },
            StatementPhase::Value(quoted) => if trivia_kind(ty) {
                statement_run(ts, err, i + 1, StatementPhase::Value(quoted))
            } else if terminator_kind(ty) {
                StatementOutcome::Ends(i)
            } else if ty == TokenType::Plus {
                if quoted {
                    statement_run(ts, err, i + 1, StatementPhase::AfterPlus)
                } else {
                    StatementOutcome::Fails(Failure::InvalidConcatenation(pos))
                }
            } else {
                StatementOutcome::Fails(Failure::UnexpectedToken(pos))
            },
            StatementPhase::AfterPlus => if trivia_kind(ty) {
                statement_run(ts, err, i + 1, StatementPhase::AfterPlus)
            } else if ty == TokenType::String {
                statement_run(ts, err, i + 1, StatementPhase::BeforePlus)
            } else {
                StatementOutcome::Fails(Failure::UnexpectedToken(pos))
            },
            StatementPhase::BeforePlus => if trivia_kind(ty) {
                statement_run(ts, err, i + 1, StatementPhase::BeforePlus)
            } else if ty == TokenType::Plus {
                statement_run(ts, err, i + 1, StatementPhase::AfterPlus)
            } else if terminator_kind(ty) {
                StatementOutcome::Ends(i)
            } else {
                StatementOutcome::Fails(Failure::UnexpectedToken(pos))
            },
        }
    }
}

/// End of the same-line whitespace and comments that start at `k`
pub open spec fn post_end(ts: Seq<(TokenType, int, int)>, k: int) -> int
    decreases ts.len() - k,
{
    if 0 <= k < ts.len() && same_line_kind(ts[k].0) {
        post_end(ts, k + 1)
    } else {
        k
    }
}

/// How reading a statement from the tokens `ts` (followed by `err`) ends: a keyword must come
/// first; after the terminator, the same-line trivia is read up to the first other token, and a
/// lexical error met there fails the statement too
pub open spec fn statement_outcome(ts: Seq<(TokenType, int, int)>, err: Option<LexError>) -> StatementOutcome {
    if ts.len() == 0 {
        match err {
            Some(e) => StatementOutcome::Fails(Failure::Lex(e)),
            None => StatementOutcome::Fails(Failure::EndOfInput(0)),
        }
    } else if ts[0].0 != TokenType::Other {
        StatementOutcome::Fails(Failure::UnexpectedToken(ts[0].1 as usize))
    } else {
        match statement_run(ts, err, 1, StatementPhase::Keyword) {
            StatementOutcome::Ends(t) => if post_end(ts, t + 1) >= ts.len() && err is Some {
                StatementOutcome::Fails(Failure::Lex(err->0))
            } else {
                StatementOutcome::Ends(t)
            },
            other => other,
        }
    }
}

/// Where the statement parser stands
enum ParseState {
    Clean,
    /// After the keyword
    ///
    ///     module foo {
    ///           ^
    GotKeyword(String, Vec<String>),
    /// After the value
    ///
    ///     module foo {
    ///               ^
    GotValue(String, Vec<String>, NodeValue, Vec<String>),
    /// Inside a run of quoted strings joined by `+`: the fragments before the last one, the last
    /// one with its comments, and whether a `+` came after it
    ///
    ///     pattern "foo" + "bar";
    ///                    ^
    GotStringConcat(String, Vec<String>, Vec<(String, Vec<String>)>, (String, Vec<String>), bool),
    /// After the `;` or `{` that ends the statement
    ///
    ///     description "foo";
    ///                       ^
    GotStatement(String, Vec<String>, Option<NodeValue>, Vec<String>, bool),
}

impl ParseState {
    /// The comments that the state holds
    spec fn comments(&self) -> Multiset<Seq<char>> {
        match self {
            ParseState::Clean => Multiset::empty(),
            ParseState::GotKeyword(_, kc) => texts(kc@),
            ParseState::GotValue(_, kc, v, vc) => texts(kc@).add(value_comments_of(Some(*v))).add(
                texts(vc@),
            ),
            ParseState::GotStringConcat(_, kc, done, current, _) => texts(kc@).add(
                fragment_comments(done@),
            ).add(texts(current.1@)),
            ParseState::GotStatement(_, kc, v, vc, _) => texts(kc@).add(value_comments_of(*v)).add(
                texts(vc@),
            ),
        }
    }

    /// The automaton phase the state stands for
    spec fn phase(&self) -> StatementPhase {
        match self {
            ParseState::GotValue(_, _, v, _) => StatementPhase::Value(v is String),
            ParseState::GotStringConcat(_, _, _, _, after_plus) => if *after_plus {
                StatementPhase::AfterPlus
            } else {
                StatementPhase::BeforePlus
            },
            _ => StatementPhase::Keyword,
        }
    }

    spec fn wf(&self) -> bool {
        match self {
            ParseState::GotValue(_, _, v, _) => value_wf(*v) && !(v is StringConcatenation),
            ParseState::GotStatement(_, _, Some(v), _, _) => value_wf(*v),
            ParseState::GotStringConcat(_, _, done, _, after_plus) => !*after_plus ==> done@.len()
                >= 1,
            _ => true,
        }
    }
}

fn unexpected(token: &Token, expected: &str) -> (r: ParseError)
    ensures
        r matches ParseError::UnexpectedToken { position, .. } && position == token.span.0,
{
    ParseError::UnexpectedToken {
        position: token.span.0,
        found: token.text.clone(),
        expected: expected.to_string(),
    }
}

/// Parses one statement from the token stream
///
/// A statement runs up to and including its `;` or `{`, and takes with it the comments that
/// follow on the same line (its post-comments). Children are not parsed here: the second value
/// returned says whether the statement opens a block, whose children the caller then reads
/// until the matching `}`.
pub fn parse_statement(token_stream: &mut ScanIterator) -> (r: Result<(Statement, bool), ParseError>)
    ensures
        r matches Ok((st, _)) ==> {
            &&& starts_statement(old(token_stream))
            &&& st.keyword.classified_from(old(token_stream).tokens()[0].text@)
            &&& st.children is None
            &&& st.value matches Some(v) ==> value_wf(v)
            &&& final(token_stream).tokens().len() > 0 ==> !is_same_line_trivia(
                final(token_stream).tokens()[0],
            )
        },
        old(token_stream).tokens().len() > 0 && !starts_statement(old(token_stream)) ==> (r
            matches Err(ParseError::UnexpectedToken { position, .. }) && position == old(
            token_stream,
        ).tokens()[0].span.0),
        old(token_stream).tokens().len() == 0 ==> r is Err,
        r matches Err(ParseError::Lex(e)) ==> old(token_stream).error() == Some(e),
        match statement_outcome(shapes(old(token_stream).tokens()), old(token_stream).error()) {
            StatementOutcome::Ends(t) => (r matches Ok((st, ob)) && statement_extent(
                old(token_stream).tokens(),
                st,
                ob,
                t,
                post_end(shapes(old(token_stream).tokens()), t + 1),
            ) && consumed(
                old(token_stream),
                final(token_stream),
                post_end(shapes(old(token_stream).tokens()), t + 1),
            ) && own_comments(st) == token_comments(
                old(token_stream).tokens().take(post_end(shapes(old(token_stream).tokens()), t + 1)),
            )),
            StatementOutcome::Fails(f) => (r matches Err(e) && failure_matches(e, f)),
        },
{
    let mut state = ParseState::Clean;
    let mut last_position: Option<usize> = None;
    let ghost start = *token_stream;
    let ghost first_text = if start.tokens().len() > 0 {
        start.tokens()[0].text@
    } else {
        Seq::empty()
    };
    let ghost mut n: int = 0;
    let ghost mut vj: int = 0;
    proof {
        assert(start.tokens().take(0) =~= Seq::<Token>::empty());
    }

    // Reads the statement itself, up to its `;` or `{`
    loop
        invariant_except_break
            state.wf(),
            !(state is GotStatement),
            state is Clean <==> n == 0,
            state is Clean ==> token_stream.tokens() == start.tokens() && token_stream.error()
                == start.error(),
            state matches ParseState::GotKeyword(k, _) ==> k@ == first_text,
            state matches ParseState::GotValue(k, _, _, _) ==> k@ == first_text,
            state matches ParseState::GotStringConcat(k, _, _, _, _) ==> k@ == first_text,
            !(state is Clean) ==> starts_statement(&start) && 1 <= n && consumed(
                &start,
                token_stream,
                n,
            ),
            state.comments() == token_comments(start.tokens().take(n)),
            forall|k: int| 1 <= k < n ==> !is_terminator(#[trigger] start.tokens()[k]),
            state is GotKeyword ==> forall|k: int| 1 <= k < n ==> is_trivia(#[trigger] start.tokens()[k]),
            (state is GotValue || state is GotStringConcat) ==> value_token_at(start.tokens(), vj, n),
            state matches ParseState::GotKeyword(_, kc) ==> comment_views(kc@) == comment_seq(
                start.tokens().subrange(1, n),
            ),
            state matches ParseState::GotValue(_, kc, v, vc) ==> comment_views(kc@) == comment_seq(
                start.tokens().subrange(1, vj),
            ) && v.from_token_spec(&start.tokens()[vj]) && comment_views(vc@) == comment_seq(
                start.tokens().subrange(vj + 1, n),
            ),
            state matches ParseState::GotStringConcat(_, kc, _, _, _) ==> comment_views(kc@)
                == comment_seq(start.tokens().subrange(1, vj)),
            state matches ParseState::GotStringConcat(_, _, done, current, _) ==> fragment_texts(
                done@,
            ).push(current.0@) == string_seq(start.tokens().subrange(vj, n)),
            state matches ParseState::GotValue(_, _, v, _) ==> (v is String ==> string_seq(
                start.tokens().subrange(vj, n),
            ) == seq![start.tokens()[vj].text@]),
            !(state is Clean) ==> statement_run(
                shapes(start.tokens()),
                start.error(),
                1,
                StatementPhase::Keyword,
            ) == statement_run(shapes(start.tokens()), start.error(), n, state.phase()),
            n >= 1 ==> last_position == Some(start.tokens()[n - 1].span.0),
            n == 0 ==> last_position is None,
        invariant
            stream_len(token_stream) <= stream_len(&start),
            start == *old(token_stream),
            start.tokens().len() == 0 || first_text == start.tokens()[0].text@,
        ensures
            state.wf(),
            state matches ParseState::GotStatement(k, _, v, _, _) && k@ == first_text,
            starts_statement(&start),
            1 <= n && consumed(&start, token_stream, n),
            state.comments() == token_comments(start.tokens().take(n)),
            n >= 2,
            is_terminator(start.tokens()[n - 1]),
            forall|k: int| 1 <= k < n - 1 ==> !is_terminator(#[trigger] start.tokens()[k]),
            state matches ParseState::GotStatement(_, _, v, _, ob) && ob == (start.tokens()[n
                - 1].token_type == TokenType::OpenCurlyBrace) && (v is None <==> forall|k: int|
                1 <= k < n - 1 ==> is_trivia(#[trigger] start.tokens()[k])),
            state matches ParseState::GotStatement(_, kc, v, vc, _) && parts_in_tokens(
                start.tokens(),
                kc@,
                v,
                vc@,
                n - 1,
            ),
            statement_run(shapes(start.tokens()), start.error(), 1, StatementPhase::Keyword)
                == StatementOutcome::Ends(n - 1),
        decreases stream_len(token_stream),
    {
        let ghost before = *token_stream;
        let token = match token_stream.next() {
            Some(Ok(token)) => token,
            Some(Err(err)) => {
                return Err(ParseError::Lex(err));
            },
            None => {
                let position = match last_position {
                    Some(p) => p,
                    None => 0,
                };
                return Err(ParseError::UnexpectedEndOfInput { position });
            },
        };
        proof {
            assert(before.tokens()[0] == token);
            assert(token_stream.tokens() =~= start.tokens().skip(n + 1));
            assert(consumed(&start, token_stream, n + 1));
            assert(start.tokens()[n] == token);
            assert(start.tokens().take(n + 1).drop_last() =~= start.tokens().take(n));
            n = n + 1;
        }
        let ghost added = token_comment(token);
        proof {
            lemma_texts_of_no_comments(Seq::empty());
            if n >= 2 {
                lemma_comment_seq_extend(start.tokens(), 1, n - 1);
            }
            if vj >= 1 && vj < n - 1 {
                lemma_comment_seq_extend(start.tokens(), vj + 1, n - 1);
            }
            if vj >= 1 && vj <= n - 1 {
                lemma_string_seq_extend(start.tokens(), vj, n - 1);
            }
        }
        assert(token_comments(start.tokens().take(n)) == token_comments(start.tokens().take(n - 1)).add(added));
        last_position = Some(token.span.0);

        state = match state {
            ParseState::Clean => match token.token_type {
                TokenType::Other => ParseState::GotKeyword(token.text, Vec::new()),
                _ => {
                    return Err(unexpected(&token, "a statement keyword"));
                },
            },
            ParseState::GotKeyword(keyword, mut keyword_comments) => match token.token_type {
                TokenType::WhiteSpace | TokenType::LineBreak => ParseState::GotKeyword(
                    keyword,
                    keyword_comments,
                ),
                TokenType::Comment => {
                    proof {
                        lemma_texts_push(keyword_comments@, token.text);
                        lemma_comment_views_push(keyword_comments@, token.text);
                    }
                    keyword_comments.push(token.text);
                    ParseState::GotKeyword(keyword, keyword_comments)
                },
                TokenType::SemiColon => {
                    state = ParseState::GotStatement(
                        keyword,
                        keyword_comments,
                        None,
                        Vec::new(),
                        false,
                    );
                    proof {
                        lemma_texts_of_no_comments(Seq::empty());
                        assert(state.comments() =~= token_comments(start.tokens().take(n)));
                    }
                    proof {
                        reveal(parts_in_tokens);
                    }
                    break ;
                },
                TokenType::OpenCurlyBrace => {
                    state = ParseState::GotStatement(
                        keyword,
                        keyword_comments,
                        None,
                        Vec::new(),
                        true,
                    );
                    proof {
                        lemma_texts_of_no_comments(Seq::empty());
                        assert(state.comments() =~= token_comments(start.tokens().take(n)));
                    }
                    proof {
                        reveal(parts_in_tokens);
                    }
                    break ;
                },
                // Anything that isn't whitespace or a comment becomes the statement value
                _ => {
                    let value = NodeValue::from_token(&token);
                    proof {
                        vj = n - 1;
                        lemma_string_seq_extend(start.tokens(), vj, vj);
                        assert(start.tokens().subrange(vj, vj) =~= Seq::<Token>::empty());
                        assert(start.tokens().subrange(vj + 1, n) =~= Seq::<Token>::empty());
                    }
                    proof {
                        lemma_texts_of_no_comments(Seq::empty());
                    }
                    ParseState::GotValue(keyword, keyword_comments, value, Vec::new())
                },
            },
            ParseState::GotValue(
                keyword,
                keyword_comments,
                value,
                mut value_comments,
            ) => match token.token_type {
                TokenType::WhiteSpace | TokenType::LineBreak => ParseState::GotValue(
                    keyword,
                    keyword_comments,
                    value,
                    value_comments,
                ),
                TokenType::Comment => {
                    proof {
                        lemma_texts_push(value_comments@, token.text);
                        lemma_comment_views_push(value_comments@, token.text);
                    }
                    value_comments.push(token.text);
                    ParseState::GotValue(keyword, keyword_comments, value, value_comments)
                },
                TokenType::SemiColon => {
                    state = ParseState::GotStatement(
                        keyword,
                        keyword_comments,
                        Some(value),
                        value_comments,
                        false,
                    );
                    proof {
                        assert(state.comments() =~= token_comments(start.tokens().take(n)));
                    }
                    proof {
                        reveal(parts_in_tokens);
                    }
                    break ;
                },
                TokenType::OpenCurlyBrace => {
                    state = ParseState::GotStatement(
                        keyword,
                        keyword_comments,
                        Some(value),
                        value_comments,
                        true,
                    );
                    proof {
                        assert(state.comments() =~= token_comments(start.tokens().take(n)));
                    }
                    proof {
                        reveal(parts_in_tokens);
                    }
                    break ;
                },
                TokenType::Plus => match value {
                    NodeValue::String(text) => {
                        proof {
                            assert(fragment_texts(Seq::empty()).push(text@) =~= seq![text@]);
                        }
                        ParseState::GotStringConcat(
                            keyword,
                            keyword_comments,
                            Vec::new(),
                            (text, value_comments),
                            true,
                        )
                    },
                    _ => {
                        return Err(ParseError::InvalidConcatenation { position: token.span.0 });
                    },
                },
                _ => {
                    return Err(unexpected(&token, "a semicolon, a block or a '+'"));
                },
            },
            ParseState::GotStringConcat(
                keyword,
                keyword_comments,
                mut done,
                mut current,
                after_plus,
            ) => match token.token_type {
                TokenType::WhiteSpace | TokenType::LineBreak => ParseState::GotStringConcat(
                    keyword,
                    keyword_comments,
                    done,
                    current,
                    after_plus,
                ),
                // Every comment in the middle of a concatenation belongs to the string before it
                TokenType::Comment => {
                    proof {
                        lemma_texts_push(current.1@, token.text);
                    }
                    current.1.push(token.text);
                    ParseState::GotStringConcat(keyword, keyword_comments, done, current, after_plus)
                },
                TokenType::String if after_plus => {
                    let ghost d = done@;
                    let ghost cur0 = current;
                    done.push(current);
                    proof {
                        assert(fragment_texts(done@) =~= fragment_texts(d).push(cur0.0@));
                        assert(done@.drop_last() =~= d);
                        lemma_texts_of_no_comments(Seq::empty());
                    }
                    ParseState::GotStringConcat(
                        keyword,
                        keyword_comments,
                        done,
                        (token.text, Vec::new()),
                        false,
                    )
                },
                TokenType::Plus if !after_plus => ParseState::GotStringConcat(
                    keyword,
                    keyword_comments,
                    done,
                    current,
                    true,
                ),
                TokenType::SemiColon if !after_plus => {
                    let ghost d = done@;
                    let ghost cur0 = current;
                    done.push(current);
                    proof {
                        assert(fragment_texts(done@) =~= fragment_texts(d).push(cur0.0@));
                        assert(value_token_at(start.tokens(), vj, n - 1));
                        reveal(parts_in_tokens);
                    }
                    state = ParseState::GotStatement(
                        keyword,
                        keyword_comments,
                        Some(NodeValue::StringConcatenation(done)),
                        Vec::new(),
                        false,
                    );
                    proof {
                        assert(done@.drop_last() =~= d);
                        lemma_texts_of_no_comments(Seq::empty());
                        assert(state.comments() =~= token_comments(start.tokens().take(n)));
                    }
                    proof {
                        reveal(parts_in_tokens);
                    }
                    break ;
                },
                TokenType::OpenCurlyBrace if !after_plus => {
                    let ghost d = done@;
                    let ghost cur0 = current;
                    done.push(current);
                    proof {
                        assert(fragment_texts(done@) =~= fragment_texts(d).push(cur0.0@));
                        assert(value_token_at(start.tokens(), vj, n - 1));
                        reveal(parts_in_tokens);
                    }
                    state = ParseState::GotStatement(
                        keyword,
                        keyword_comments,
                        Some(NodeValue::StringConcatenation(done)),
                        Vec::new(),
                        true,
                    );
                    proof {
                        assert(done@.drop_last() =~= d);
                        lemma_texts_of_no_comments(Seq::empty());
                        assert(state.comments() =~= token_comments(start.tokens().take(n)));
                    }
                    proof {
                        reveal(parts_in_tokens);
                    }
                    break ;
                },
                _ => {
                    if after_plus {
                        return Err(unexpected(&token, "a quoted string"));
                    } else {
                        return Err(unexpected(&token, "a '+', a semicolon or a block"));
                    }
                },
            },
            ParseState::GotStatement(k, kc, v, vc, ob) => {
                // The loop ends as soon as the statement is complete
                ParseState::GotStatement(k, kc, v, vc, ob)
            },
        };
        proof {
            assert(state.comments() =~= token_comments(start.tokens().take(n)));
        }
    }

    let ghost held = state.comments();
    let (keyword, keyword_comments, value, value_comments, opens_block) = match state {
        ParseState::GotStatement(k, kc, v, vc, ob) => (k, kc, v, vc, ob),
        _ => {
            // The loop only ends on a complete statement
            return Err(ParseError::UnexpectedEndOfInput { position: 0 });
        },
    };

    // Comments on the same line as the `;` or `{` belong to the statement
    let mut post_comments: Vec<String> = Vec::new();
    let ghost t = n - 1;
    proof {
        lemma_post_end_bounds(shapes(start.tokens()), n);
        lemma_texts_of_no_comments(post_comments@);
        assert(start.tokens().subrange(t + 1, n) =~= Seq::<Token>::empty());
        assert(post_comments@.map_values(|c: String| c@) =~= Seq::<Seq<char>>::empty());
    }
    loop
        invariant
            start == *old(token_stream),
            starts_statement(&start),
            1 <= t < n && consumed(&start, token_stream, n),
            held.add(texts(post_comments@)) == token_comments(start.tokens().take(n)),
            forall|k: int| t < k < n ==> is_same_line_trivia(#[trigger] start.tokens()[k]),
            post_comments@.map_values(|c: String| c@) == comment_seq(start.tokens().subrange(t + 1, n)),
            post_end(shapes(start.tokens()), t + 1) == post_end(shapes(start.tokens()), n),
            statement_run(shapes(start.tokens()), start.error(), 1, StatementPhase::Keyword)
                == StatementOutcome::Ends(t),
        ensures
            post_end(shapes(start.tokens()), t + 1) == n,
            !(n >= start.tokens().len() && start.error() is Some),
            1 <= t < n && consumed(&start, token_stream, n),
            held.add(texts(post_comments@)) == token_comments(start.tokens().take(n)),
            forall|k: int| t < k < n ==> is_same_line_trivia(#[trigger] start.tokens()[k]),
            post_comments@.map_values(|c: String| c@) == comment_seq(start.tokens().subrange(t + 1, n)),
            token_stream.tokens().len() > 0 ==> !is_same_line_trivia(token_stream.tokens()[0]),
        decreases stream_len(token_stream),
    {
        let ghost before = *token_stream;
        let take = match token_stream.peek() {
            Some(Ok(token)) => match token.token_type {
                TokenType::WhiteSpace => Some(None),
                TokenType::Comment => Some(Some(token.text.clone())),
                _ => None,
            },
            Some(Err(err)) => {
                return Err(ParseError::Lex(err));
            },
            None => None,
        };
        match take {
            Some(comment) => {
                let _ = token_stream.next();
                proof {
                    let token = before.tokens()[0];
                    assert(token_stream.tokens() =~= start.tokens().skip(n + 1));
                    assert(consumed(&start, token_stream, n + 1));
                    assert(start.tokens()[n] == token);
                    assert(start.tokens().take(n + 1).drop_last() =~= start.tokens().take(n));
                    n = n + 1;
                }
                let ghost old_post = post_comments@;
                if let Some(c) = comment {
                    proof {
                        lemma_texts_push(post_comments@, c);
                    }
                    post_comments.push(c);
                }
                proof {
                    assert(held.add(texts(post_comments@)) =~= token_comments(start.tokens().take(n)));
                    let sub = start.tokens().subrange(t + 1, n);
                    assert(sub.drop_last() =~= start.tokens().subrange(t + 1, n - 1));
                    assert(sub.last() == start.tokens()[n - 1]);
                    assert(post_comments@.map_values(|c: String| c@) =~= comment_seq(sub));
                }
            },
            None => {
                break ;
            },
        }
    }

    let st = Statement {
        keyword: StatementKeyword::from_text(keyword.as_str()),
        keyword_comments,
        value,
        value_comments,
        children: None,
        post_comments,
    };
    proof {
        assert(own_comments(st) =~= token_comments(start.tokens().take(n)));
        reveal(statement_extent);
        assert(statement_extent(start.tokens(), st, opens_block, t, n));
    }
    let result = (st, opens_block);
    proof {
        assert(statement_extent(start.tokens(), result.0, result.1, t, n));
        assert(consumed(&start, token_stream, n));
        assert(own_comments(result.0) == token_comments(start.tokens().take(n)));

    }
    Ok(result)
}

/// Whether a sibling list on the stack of open blocks ends with the statement whose block it
/// waits for
pub open spec fn ends_with_open_block(nodes: Seq<Node>) -> bool {
    nodes.len() > 0 && (nodes.last() matches Node::Statement(st) && st.children is None)
}

/// Every run of quoted strings in the node and below it has two fragments or more
pub open spec fn node_wf(n: Node) -> bool
    decreases n,
{
    match n {
        Node::Statement(st) => (st.value matches Some(v) ==> value_wf(v)) && match st.children {
            Some(c) => forall|i: int| 0 <= i < c@.len() ==> node_wf(#[trigger] c@[i]),
            None => true,
        },
        _ => true,
    }
}

/// The comments of all the sibling lists on the stack
pub open spec fn stack_comments(stack: Seq<Vec<Node>>) -> Multiset<Seq<char>>
    decreases stack.len(),
{
    if stack.len() == 0 {
        Multiset::empty()
    } else {
        stack_comments(stack.drop_last()).add(nodes_comments(stack.last()@))
    }
}

/// The tree builder over token kinds, from token `i` on with `depth` blocks open; `last` is where
/// the last token looked at started. Whitespace, line breaks and comments pass, a `}` closes a
/// block, and anything else starts a statement, read by `statement_outcome`
pub open spec fn parse_run(
    ts: Seq<(TokenType, int, int)>,
    err: Option<LexError>,
    i: int,
    depth: nat,
    last: usize,
) -> Result<(), Failure>
    decreases ts.len() - i,
{
    if i < 0 || i >= ts.len() {
        match err {
            Some(e) => Err(Failure::Lex(e)),
            None => if depth > 0 {
                Err(Failure::UnclosedBlock(last))
            } else {
                Ok(())
            },
        }
    } else {
        let ty = ts[i].0;
        let pos = ts[i].1 as usize;
        if trivia_kind(ty) {
            parse_run(ts, err, i + 1, depth, pos)
        } else if ty == TokenType::ClosingCurlyBrace {
            if depth == 0 {
                Err(Failure::UnexpectedClosingBrace(pos))
            } else {
                parse_run(ts, err, i + 1, (depth - 1) as nat, pos)
            }
        } else {
            let rest = ts.skip(i);
            match statement_outcome(rest, err) {
                StatementOutcome::Ends(t) => {
                    let m = post_end(rest, t + 1);
                    // A statement always spans its keyword and terminator within the tokens
                    if m < 1 || i + m > ts.len() || t < 0 || t >= rest.len() {
                        Ok(())
                    } else {
                        let opened: nat = if rest[t].0 == TokenType::OpenCurlyBrace {
                            1
                        } else {
                            0
                        };
                        parse_run(ts, err, i + m, depth + opened, pos)
                    }
                },
                StatementOutcome::Fails(f) => Err(f),
            }
        }
    }
}

/// One step of a walk over a tree in source order
pub enum LayoutStep {
    /// A statement, by its keyword
    Statement(Seq<char>),
    /// The start of a statement's block
    Open,
    /// The end of a block
    Close,
    Comment(Seq<char>),
    Blank,
}

/// The walk over a node: a statement, then its block between `Open` and `Close` if it has one
/// (a leaf ended by `;` has none; an empty block has both)
pub open spec fn node_layout(n: Node) -> Seq<LayoutStep>
    decreases n,
{
    match n {
        Node::Statement(st) => seq![LayoutStep::Statement(st.keyword.spec_text())] + match st.children {
            Some(c) => seq![LayoutStep::Open] + layout(c@) + seq![LayoutStep::Close],
            None => Seq::empty(),
        },
        Node::Comment(t) => seq![LayoutStep::Comment(t@)],
        Node::EmptyLine(_) => seq![LayoutStep::Blank],
    }
}

/// The walk over a sibling list
pub open spec fn layout(nodes: Seq<Node>) -> Seq<LayoutStep>
    decreases nodes,
{
    if nodes.len() == 0 {
        Seq::empty()
    } else {
        layout(nodes.drop_last()) + node_layout(nodes.last())
    }
}

/// The walk over the stack of open sibling lists, each one opened by the statement that ends
/// the list below it
pub open spec fn stack_layout(stack: Seq<Vec<Node>>) -> Seq<LayoutStep>
    decreases stack.len(),
{
    if stack.len() == 0 {
        Seq::empty()
    } else if stack.len() == 1 {
        layout(stack[0]@)
    } else {
        stack_layout(stack.drop_last()) + seq![LayoutStep::Open] + layout(stack.last()@)
    }
}

/// The text of token `i` of `b`
pub open spec fn text_of_token(b: Seq<u8>, ts: Seq<(TokenType, int, int)>, i: int) -> Seq<char> {
    decode_utf8(b.subrange(ts[i].1, ts[i].2))
}

/// The walk over the tree that the tokens from `i` on build, where `prev_break` says whether the
/// last token before them other than whitespace was a line break: a line break right after a
/// line break is a blank line, a comment standing alone is a comment node, `}` closes a block,
/// and a statement opens one when it ends with `{`
pub open spec fn parse_layout(
    b: Seq<u8>,
    ts: Seq<(TokenType, int, int)>,
    err: Option<LexError>,
    i: int,
    prev_break: bool,
) -> Seq<LayoutStep>
    decreases ts.len() - i,
{
    if i < 0 || i >= ts.len() {
        Seq::empty()
    } else {
        let ty = ts[i].0;
        if ty == TokenType::WhiteSpace {
            parse_layout(b, ts, err, i + 1, prev_break)
        } else if ty == TokenType::LineBreak {
            (if prev_break {
                seq![LayoutStep::Blank]
            } else {
                Seq::empty()
            }) + parse_layout(b, ts, err, i + 1, true)
        } else if ty == TokenType::Comment {
            seq![LayoutStep::Comment(text_of_token(b, ts, i))] + parse_layout(b, ts, err, i + 1, false)
        } else if ty == TokenType::ClosingCurlyBrace {
            seq![LayoutStep::Close] + parse_layout(b, ts, err, i + 1, false)
        } else {
            let rest = ts.skip(i);
            match statement_outcome(rest, err) {
                StatementOutcome::Ends(t) => {
                    let m = post_end(rest, t + 1);
                    // A statement always spans its keyword and terminator within the tokens
                    if m < 1 || i + m > ts.len() || t < 0 || t >= rest.len() {
                        Seq::empty()
                    } else {
                        seq![LayoutStep::Statement(text_of_token(b, ts, i))] + (if rest[t].0
                            == TokenType::OpenCurlyBrace {
                            seq![LayoutStep::Open]
                        } else {
                            Seq::empty()
                        }) + parse_layout(b, ts, err, i + m, false)
                    }
                },
                StatementOutcome::Fails(_) => Seq::empty(),
            }
        }
    }
}

/// The walk over the tree that a buffer that parses builds
pub open spec fn spec_layout(buffer: Seq<u8>) -> Seq<LayoutStep> {
    parse_layout(buffer, spec_scan(buffer, 0).0, spec_scan(buffer, 0).1, 0, false)
}

/// What parsing `buffer` gives: a tree holding exactly the comments of the buffer's comment
/// tokens, whose runs of quoted strings have two fragments or more
pub open spec fn parsed_tree(buffer: Seq<u8>, nodes: Seq<Node>) -> bool {
    &&& exists|ts: Seq<Token>|
        tokens_match(buffer, ts, spec_scan(buffer, 0).0) && nodes_comments(nodes) == token_comments(
            ts,
        )
    &&& forall|i: int| 0 <= i < nodes.len() ==> node_wf(#[trigger] nodes[i])
    &&& layout(nodes) == spec_layout(buffer)
}

/// Whether, and how, the buffer parses
pub open spec fn spec_parse(buffer: Seq<u8>) -> Result<(), Failure> {
    parse_run(spec_scan(buffer, 0).0, spec_scan(buffer, 0).1, 0, 0, 0)
}

/// Parses a buffer into a syntax tree
///
/// The root holds the top-level nodes: usually one module statement and the comments around
/// it. The language's grammar is not enforced beyond statement structure: an unknown keyword is
/// kept as an invalid one. Every comment of the buffer lands in the tree, once.
#[verifier::rlimit(100)]
#[verifier::spinoff_prover]
pub fn parse(buffer: &[u8]) -> (r: Result<RootNode, ParseError>)
    ensures
        spec_scan(buffer@, 0).1 is Some ==> r is Err,
        r matches Err(ParseError::Lex(e)) ==> spec_scan(buffer@, 0).1 == Some(e),
        r matches Ok(root) ==> parsed_tree(buffer@, root.children@),
        match spec_parse(buffer@) {
            Ok(()) => r is Ok,
            Err(f) => (r matches Err(e) && failure_matches(e, f)),
        },
{
    let mut token_stream = scan(buffer);
    let ghost initial = token_stream;
    let ghost all = token_stream.tokens();
    let ghost mut count: int = 0;
    let mut node_stack: Vec<Vec<Node>> = vec![Vec::new()];
    let mut prev_token_was_line_break = false;
    let mut prev_token_pos: usize = 0;
    proof {
        assert(all.take(0) =~= Seq::<Token>::empty());
        assert(node_stack@.drop_last() =~= Seq::<Vec<Node>>::empty());
        assert(node_stack@.last()@ =~= Seq::<Node>::empty());
        assert(nodes_comments(node_stack@.last()@) =~= Multiset::<Seq<char>>::empty());
        assert(stack_comments(node_stack@.drop_last()) =~= Multiset::<Seq<char>>::empty());
        assert(stack_comments(node_stack@) =~= Multiset::<Seq<char>>::empty());
        assert(token_stream.tokens() =~= all.skip(0));
        assert forall|k: int| 0 <= k < all.len() implies #[trigger] shapes(all)[k] == spec_scan(
            buffer@,
            0,
        ).0[k] by {
            assert(all[k].is_lexeme_of(buffer@, spec_scan(buffer@, 0).0[k]));
        }
        assert(shapes(all) =~= spec_scan(buffer@, 0).0);
    }

    loop
        invariant
            node_stack@.len() >= 1,
            forall|k: int|
                0 <= k < node_stack@.len() - 1 ==> ends_with_open_block(#[trigger] node_stack@[k]@),
            forall|k: int, i: int|
                0 <= k < node_stack@.len() && 0 <= i < node_stack@[k]@.len() ==> node_wf(
                    #[trigger] node_stack@[k]@[i],
                ),
            token_stream.error() == spec_scan(buffer@, 0).1,
            initial.error() == spec_scan(buffer@, 0).1,
            all == initial.tokens(),
            tokens_match(buffer@, all, spec_scan(buffer@, 0).0),
            consumed(&initial, &token_stream, count),
            stack_comments(node_stack@) == token_comments(all.take(count)),
            shapes(all) == spec_scan(buffer@, 0).0,
            spec_parse(buffer@) == parse_run(
                shapes(all),
                initial.error(),
                count,
                (node_stack@.len() - 1) as nat,
                prev_token_pos,
            ),
            spec_layout(buffer@) == stack_layout(node_stack@) + parse_layout(
                buffer@,
                shapes(all),
                initial.error(),
                count,
                prev_token_was_line_break,
            ),
        ensures
            spec_layout(buffer@) == stack_layout(node_stack@) + parse_layout(
                buffer@,
                shapes(all),
                initial.error(),
                count,
                prev_token_was_line_break,
            ),
            spec_parse(buffer@) == parse_run(
                shapes(all),
                None,
                count,
                (node_stack@.len() - 1) as nat,
                prev_token_pos,
            ),
            node_stack@.len() >= 1,
            spec_scan(buffer@, 0).1 is None,
            count == all.len(),
            stack_comments(node_stack@) == token_comments(all.take(count)),
            forall|k: int|
                0 <= k < node_stack@.len() - 1 ==> ends_with_open_block(#[trigger] node_stack@[k]@),
            forall|k: int, i: int|
                0 <= k < node_stack@.len() && 0 <= i < node_stack@[k]@.len() ==> node_wf(
                    #[trigger] node_stack@[k]@[i],
                ),
        decreases stream_len(&token_stream),
    {
        let ghost before = token_stream;
        let (token_type, token_pos, token_text) = match token_stream.peek() {
            Some(Ok(token)) => {
                proof {
                    assert(*token == before.tokens()[0]);
                }
                (token.token_type, token.span.0, token.text.clone())
            },
            Some(Err(error)) => {
                return Err(ParseError::Lex(error));
            },
            None => {
                break ;
            },
        };
        let is_line_break = token_type == TokenType::LineBreak;
        let is_whitespace = token_type == TokenType::WhiteSpace;
        let ghost stack_before = node_stack@;
        let ghost flag0 = prev_token_was_line_break;
        let ghost new_flag = if is_line_break {
            true
        } else if is_whitespace {
            flag0
        } else {
            false
        };
        let ghost c0 = count;
        let ghost sh = shapes(all);
        let ghost err0 = initial.error();
        let mut nodes = node_stack.pop().unwrap();
        let ghost rest = node_stack@;
        let ghost nodes0 = nodes;
        proof {
            assert(stack_before.drop_last() =~= rest);
            lemma_take_one_more(all, count);
            assert(all[count] == before.tokens()[0]);
            assert(sh[count] == all[count].shape());
            assert(sh[count].0 == token_type);
            assert(all[count].is_lexeme_of(buffer@, spec_scan(buffer@, 0).0[count]));
            assert(text_of_token(buffer@, sh, count) == all[count].text@);
            assert(token_text@ == all[count].text@);
            assert(stack_before =~= rest.push(nodes0));
        }

        match token_type {
            TokenType::WhiteSpace => {
                let _ = token_stream.next();
                node_stack.push(nodes);
                proof {
                    assert(node_stack@ =~= stack_before);
                    lemma_advance_one(&initial, &before, &token_stream, count);
                    assert(token_comment(all[count]) =~= Multiset::<Seq<char>>::empty());
                    count = count + 1;
                    assert(parse_layout(buffer@, sh, err0, c0, flag0) == parse_layout(
                        buffer@,
                        sh,
                        err0,
                        count,
                        flag0,
                    ));
                    assert(stack_layout(node_stack@) + parse_layout(buffer@, sh, err0, count, new_flag)
                        =~= stack_layout(stack_before) + parse_layout(buffer@, sh, err0, c0, flag0));
                }
            },
            TokenType::LineBreak => {
                // A blank line is a line break right after another one
                if prev_token_was_line_break {
                    let ghost old_nodes = nodes@;
                    nodes.push(Node::EmptyLine(token_text));
                    proof {
                        assert(nodes@.drop_last() =~= old_nodes);
                    }
                }
                let _ = token_stream.next();
                node_stack.push(nodes);
                proof {
                    assert(node_stack@.drop_last() =~= rest);
                    lemma_advance_one(&initial, &before, &token_stream, count);
                    assert(token_comment(all[count]) =~= Multiset::<Seq<char>>::empty());
                    if prev_token_was_line_break {
                        assert(node_comments(nodes@.last()) =~= Multiset::<Seq<char>>::empty());
                        assert(nodes_comments(nodes@) =~= nodes_comments(stack_before.last()@));
                    } else {
                        assert(nodes@ == stack_before.last()@);
                    }
                    assert(stack_comments(node_stack@) =~= stack_comments(rest).add(nodes_comments(nodes@)));
                    assert(stack_comments(stack_before) =~= stack_comments(rest).add(
                        nodes_comments(stack_before.last()@),
                    ));
                    count = count + 1;
                    let blank = if flag0 {
                        seq![LayoutStep::Blank]
                    } else {
                        Seq::<LayoutStep>::empty()
                    };
                    if flag0 {
                        lemma_layout_push(nodes0@, nodes@.last());
                        assert(nodes@ =~= nodes0@.push(nodes@.last()));
                    } else {
                        assert(layout(nodes@) =~= layout(nodes0@) + blank);
                    }
                    lemma_stack_layout_grow(rest, nodes0, nodes, blank);
                    assert(node_stack@ =~= rest.push(nodes));
                    assert(parse_layout(buffer@, sh, err0, c0, flag0) == blank + parse_layout(
                        buffer@,
                        sh,
                        err0,
                        count,
                        true,
                    ));
                    assert(stack_layout(node_stack@) + parse_layout(buffer@, sh, err0, count, new_flag)
                        =~= stack_layout(stack_before) + parse_layout(buffer@, sh, err0, c0, flag0));
                }
            },
            TokenType::Comment => {
                let ghost old_nodes = nodes@;
                nodes.push(Node::Comment(token_text));
                let _ = token_stream.next();
                node_stack.push(nodes);
                proof {
                    assert(nodes@.drop_last() =~= old_nodes);
                    assert(node_stack@.drop_last() =~= rest);
                    lemma_advance_one(&initial, &before, &token_stream, count);
                    assert(token_comment(all[count]) =~= Multiset::singleton(token_text@));
                    assert(node_comments(nodes@.last()) =~= Multiset::singleton(token_text@));
                    assert(stack_comments(node_stack@) =~= stack_comments(rest).add(nodes_comments(nodes@)));
                    assert(stack_comments(stack_before) =~= stack_comments(rest).add(
                        nodes_comments(old_nodes),
                    ));
                    count = count + 1;
                    let step = seq![LayoutStep::Comment(token_text@)];
                    lemma_layout_push(nodes0@, nodes@.last());
                    assert(nodes@ =~= nodes0@.push(nodes@.last()));
                    lemma_stack_layout_grow(rest, nodes0, nodes, step);
                    assert(node_stack@ =~= rest.push(nodes));
                    assert(parse_layout(buffer@, sh, err0, c0, flag0) == step + parse_layout(
                        buffer@,
                        sh,
                        err0,
                        count,
                        false,
                    ));
                    assert(stack_layout(node_stack@) + parse_layout(buffer@, sh, err0, count, new_flag)
                        =~= stack_layout(stack_before) + parse_layout(buffer@, sh, err0, c0, flag0));
                }
            },
            TokenType::ClosingCurlyBrace => {
                if node_stack.len() == 0 {
                    return Err(ParseError::UnexpectedClosingBrace { position: token_pos });
                }
                let ghost stack_rest = node_stack@;
                let mut parent = node_stack.pop().unwrap();
                let ghost parent_before = parent@;
                let last = parent.pop().unwrap();
                match last {
                    Node::Statement(statement) => {
                        let ghost closed = statement;
                        let ghost inner = nodes@;
                        let ghost kept = parent@;
                        let st = Statement { children: Some(nodes), ..statement };
                        let ghost st_g = st;
                        parent.push(Node::Statement(st));
                        proof {
                            assert(layout(parent@) == layout(parent_before) + (seq![LayoutStep::Open]
                                + layout(inner) + seq![LayoutStep::Close]) && nodes_comments(parent@)
                                == nodes_comments(parent_before).add(nodes_comments(inner))) by {
                            assert(ends_with_open_block(stack_before[stack_before.len() - 2]@));
                            assert(stack_before[stack_before.len() - 2] == stack_rest.last());
                            assert(parent_before.last() == Node::Statement(closed));
                            assert(kept =~= parent_before.drop_last());
                            assert(own_comments(st) == own_comments(closed));
                            assert(statement_comments(closed) =~= own_comments(closed));
                            assert(node_comments(parent_before.last()) == statement_comments(closed));
                            assert(nodes_comments(parent_before) =~= nodes_comments(kept).add(
                                own_comments(closed),
                            ));
                            assert(statement_comments(st) =~= own_comments(closed).add(nodes_comments(inner)));
                            assert(parent@.drop_last() =~= kept);
                            assert(parent@.last() == Node::Statement(st_g));
                            lemma_layout_push(kept, Node::Statement(st_g));
                            lemma_layout_push(kept, Node::Statement(closed));
                            assert(parent_before =~= kept.push(Node::Statement(closed)));
                            assert(parent@ =~= kept.push(Node::Statement(st_g)));
                            assert(node_layout(Node::Statement(closed)) =~= seq![
                                LayoutStep::Statement(closed.keyword.spec_text()),
                            ]);
                            assert(node_layout(Node::Statement(st_g)) =~= seq![
                                LayoutStep::Statement(closed.keyword.spec_text()),
                            ] + seq![LayoutStep::Open] + layout(inner) + seq![LayoutStep::Close]);
                            assert(layout(parent@) =~= layout(parent_before) + (seq![LayoutStep::Open]
                                + layout(inner) + seq![LayoutStep::Close]));
                            assert(node_comments(parent@.last()) == statement_comments(st_g));
                            assert(nodes_comments(parent@) =~= nodes_comments(kept).add(own_comments(closed)).add(
                                nodes_comments(inner),
                            ));
                            }
                        }
                    },
                    other => {
                        // The list under an open block always ends with the block's statement
                        assert(false);
                        parent.push(other);
                    },
                }
                node_stack.push(parent);
                let _ = token_stream.next();
                proof {
                    lemma_advance_one(&initial, &before, &token_stream, count);
                    count = count + 1;
                    assert(stack_comments(node_stack@) == stack_comments(stack_before) && stack_layout(
                        node_stack@,
                    ) == stack_layout(stack_before) + seq![LayoutStep::Close]) by {
                        let r0 = stack_rest.drop_last();
                        assert(parent@.drop_last() =~= parent_before.drop_last());
                        assert(node_stack@.drop_last() =~= r0);
                        assert(stack_rest =~= rest);
                        assert(stack_before.drop_last() =~= stack_rest);
                        assert(stack_rest.drop_last() =~= r0);
                        assert(stack_rest.last()@ == parent_before);
                        assert(stack_comments(stack_rest) =~= stack_comments(r0).add(
                            nodes_comments(parent_before),
                        ));
                        assert(stack_comments(stack_before) =~= stack_comments(r0).add(
                            nodes_comments(parent_before),
                        ).add(nodes_comments(stack_before.last()@)));
                        assert(stack_comments(node_stack@) =~= stack_comments(r0).add(
                            nodes_comments(parent@),
                        ));
                        assert(stack_comments(node_stack@) =~= stack_comments(stack_before));
                        let extra = seq![LayoutStep::Open] + layout(nodes0@) + seq![LayoutStep::Close];
                        lemma_stack_layout_grow(r0, stack_rest.last(), parent, extra);
                        assert(stack_rest =~= r0.push(stack_rest.last()));
                        assert(node_stack@ =~= r0.push(parent));
                        assert(stack_before =~= stack_rest.push(nodes0));
                        assert(stack_layout(stack_before) =~= stack_layout(stack_rest) + seq![
                            LayoutStep::Open,
                        ] + layout(nodes0@));
                        assert(stack_layout(node_stack@) =~= stack_layout(stack_before) + seq![
                            LayoutStep::Close,
                        ]);
                    }
                    assert(parse_layout(buffer@, sh, err0, c0, flag0) == seq![LayoutStep::Close]
                        + parse_layout(buffer@, sh, err0, count, false));
                    assert(stack_layout(node_stack@) + parse_layout(buffer@, sh, err0, count, new_flag)
                        =~= stack_layout(stack_before) + parse_layout(buffer@, sh, err0, c0, flag0));
                    assert forall|k: int|
                        0 <= k < node_stack@.len() - 1 implies ends_with_open_block(
                            #[trigger] node_stack@[k]@,
                        ) by {
                        assert(node_stack@[k] == stack_before[k]);
                    }
                }
            },
            _ => {
                let ghost ts_before = token_stream;
                let ghost tail = shapes(all).skip(count);
                proof {
                    assert(ts_before.tokens() == all.skip(count));
                    assert(shapes(ts_before.tokens()) =~= tail);
                    assert(all[count] == before.tokens()[0]);
                    assert(tail[0] == shapes(all)[count]);
                }
                let (statement, opens_block) = match parse_statement(&mut token_stream) {
                    Ok(parsed) => parsed,
                    Err(e) => {
                        return Err(e);
                    },
                };
                let ghost old_nodes = nodes@;
                let ghost sg = statement;
                let ghost c0 = count;
                let ghost t = statement_outcome(tail, initial.error())->Ends_0;
                proof {
                    assert(ts_before.error() == initial.error());
                    assert(statement_outcome(tail, initial.error()) is Ends);
                    let m = post_end(tail, t + 1);
                    assert(consumed(&ts_before, &token_stream, m));
                    lemma_extent_bounds(ts_before.tokens(), sg, opens_block, t, m);
                    lemma_take_more(all, count, m);
                    assert(token_stream.tokens() =~= all.skip(count + m));
                    count = count + m;
                    assert(token_comments(all.take(count)) == token_comments(all.take(c0)).add(
                        own_comments(sg),
                    ));
                }
                nodes.push(Node::Statement(statement));
                node_stack.push(nodes);
                proof {
                    assert(nodes@.drop_last() =~= old_nodes);
                    assert(nodes@.last() == Node::Statement(sg));
                    assert(statement_comments(sg) =~= own_comments(sg));
                    assert(node_comments(nodes@.last()) == own_comments(sg));
                    assert(nodes_comments(nodes@) =~= nodes_comments(old_nodes).add(own_comments(sg)));
                    assert(node_stack@.drop_last() =~= rest);
                    assert(stack_comments(stack_before) =~= stack_comments(rest).add(nodes_comments(old_nodes)));
                    assert(stack_comments(node_stack@) =~= stack_comments(rest).add(nodes_comments(nodes@)));
                    assert(stack_comments(node_stack@) =~= token_comments(all.take(count)));
                    let step = seq![LayoutStep::Statement(all[c0].text@)];
                    let open_step = if opens_block {
                        seq![LayoutStep::Open]
                    } else {
                        Seq::<LayoutStep>::empty()
                    };
                    assert(stack_layout(node_stack@) == stack_layout(stack_before) + step
                        && parse_layout(buffer@, sh, err0, c0, flag0) == step + open_step
                        + parse_layout(buffer@, sh, err0, count, false)) by {
                        assert(ts_before.tokens()[0] == all[c0]);
                        assert(sg.keyword.spec_text() == all[c0].text@);
                        assert(node_layout(Node::Statement(sg)) =~= step);
                        lemma_layout_push(nodes0@, Node::Statement(sg));
                        assert(nodes@ =~= nodes0@.push(Node::Statement(sg)));
                        lemma_stack_layout_grow(rest, nodes0, nodes, step);
                        assert(node_stack@ =~= rest.push(nodes));
                        let pe = post_end(tail, t + 1);
                        lemma_extent_bounds(ts_before.tokens(), sg, opens_block, t, pe);
                        assert(count == c0 + pe);
                        assert(sh.skip(c0) =~= tail);
                        assert(tail[t] == shapes(ts_before.tokens())[t]);
                        assert(opens_block == (tail[t].0 == TokenType::OpenCurlyBrace));
                    }
                    if !opens_block {
                        assert(stack_layout(node_stack@) + parse_layout(buffer@, sh, err0, count, new_flag)
                            =~= stack_layout(stack_before) + parse_layout(buffer@, sh, err0, c0, flag0));
                    }
                }
                if opens_block {
                    let ghost with_block = node_stack@;
                    node_stack.push(Vec::new());
                    proof {
                        assert(node_stack@.drop_last() =~= with_block);
                        assert(nodes_comments(Seq::<Node>::empty()) =~= Multiset::<Seq<char>>::empty());
                        assert(stack_comments(node_stack@) =~= stack_comments(with_block));
                        assert(with_block.len() >= 1);
                        assert(node_stack@.last()@ =~= Seq::<Node>::empty());
                        assert(stack_layout(node_stack@) =~= stack_layout(with_block) + seq![
                            LayoutStep::Open,
                        ]);
                        assert(stack_layout(node_stack@) + parse_layout(buffer@, sh, err0, count, new_flag)
                            =~= stack_layout(stack_before) + parse_layout(buffer@, sh, err0, c0, flag0));
                        assert forall|k: int|
                            0 <= k < node_stack@.len() - 1 implies ends_with_open_block(
                                #[trigger] node_stack@[k]@,
                            ) by {
                            if k < node_stack@.len() - 2 {
                                assert(node_stack@[k] == stack_before[k]);
                            }
                        }
                    }
                }
            },
        }

        if is_line_break {
            prev_token_was_line_break = true;
        } else if !is_whitespace {
            prev_token_was_line_break = false;
        }
        prev_token_pos = token_pos;
    }

    if node_stack.len() > 1 {
        return Err(ParseError::UnclosedBlock { position: prev_token_pos });
    }
    let ghost whole = node_stack@;
    let children = node_stack.pop().unwrap();
    proof {
        assert(all.take(count) =~= all);
        assert(whole.drop_last() =~= Seq::<Vec<Node>>::empty());
        assert(children == whole.last());
        assert(stack_comments(whole.drop_last()) =~= Multiset::<Seq<char>>::empty());
        assert(stack_comments(whole) =~= nodes_comments(children@));
        assert(tokens_match(buffer@, all, spec_scan(buffer@, 0).0));
        assert(nodes_comments(children@) == token_comments(all));
    }
    Ok(RootNode { children })
}

proof fn lemma_post_end_bounds(ts: Seq<(TokenType, int, int)>, k: int)
    requires
        0 <= k <= ts.len(),
    ensures
        k <= post_end(ts, k) <= ts.len(),
    decreases ts.len() - k,
{
    if k < ts.len() && same_line_kind(ts[k].0) {
        lemma_post_end_bounds(ts, k + 1);
    }
}

proof fn lemma_comment_seq_extend(ts: Seq<Token>, a: int, b: int)
    requires
        0 <= a <= b < ts.len(),
    ensures
        comment_seq(ts.subrange(a, b + 1)) == comment_seq(ts.subrange(a, b)) + if ts[b].token_type
            == TokenType::Comment {
            seq![ts[b].text@]
        } else {
            Seq::<Seq<char>>::empty()
        },
{
    assert(ts.subrange(a, b + 1).drop_last() =~= ts.subrange(a, b));
    assert(ts.subrange(a, b + 1).last() == ts[b]);
}

proof fn lemma_extent_bounds(ts: Seq<Token>, st: Statement, ob: bool, t: int, n: int)
    requires
        statement_extent(ts, st, ob, t, n),
    ensures
        1 <= t < n <= ts.len(),
        ob == (ts[t].token_type == TokenType::OpenCurlyBrace),
{
    reveal(statement_extent);
}

proof fn lemma_string_seq_extend(ts: Seq<Token>, a: int, b: int)
    requires
        0 <= a <= b < ts.len(),
    ensures
        string_seq(ts.subrange(a, b + 1)) == string_seq(ts.subrange(a, b)) + if ts[b].token_type
            == TokenType::String {
            seq![ts[b].text@]
        } else {
            Seq::<Seq<char>>::empty()
        },
{
    assert(ts.subrange(a, b + 1).drop_last() =~= ts.subrange(a, b));
    assert(ts.subrange(a, b + 1).last() == ts[b]);
}

proof fn lemma_comment_views_push(cs: Seq<String>, c: String)
    ensures
        comment_views(cs.push(c)) == comment_views(cs).push(c@),
{
    assert(comment_views(cs.push(c)) =~= comment_views(cs).push(c@));
}

proof fn lemma_stack_layout_grow(rest: Seq<Vec<Node>>, w: Vec<Node>, w2: Vec<Node>, extra: Seq<LayoutStep>)
    requires
        layout(w2@) == layout(w@) + extra,
    ensures
        stack_layout(rest.push(w2)) == stack_layout(rest.push(w)) + extra,
{
    if rest.len() == 0 {
        assert(rest.push(w2)[0] == w2);
        assert(rest.push(w)[0] == w);
    } else {
        assert(rest.push(w2).drop_last() =~= rest);
        assert(rest.push(w).drop_last() =~= rest);
        assert(stack_layout(rest.push(w2)) =~= stack_layout(rest.push(w)) + extra);
    }
}

proof fn lemma_layout_push(w: Seq<Node>, x: Node)
    ensures
        layout(w.push(x)) == layout(w) + node_layout(x),
{
    assert(w.push(x).drop_last() =~= w);
}

proof fn lemma_take_one_more(all: Seq<Token>, count: int)
    requires
        0 <= count < all.len(),
    ensures
        token_comments(all.take(count + 1)) == token_comments(all.take(count)).add(
            token_comment(all[count]),
        ),
{
    assert(all.take(count + 1).drop_last() =~= all.take(count));
}

proof fn lemma_advance_one(initial: &ScanIterator, before: &ScanIterator, after: &ScanIterator, count: int)
    requires
        consumed(initial, before, count),
        before.tokens().len() > 0,
        after.tokens() == before.tokens().skip(1),
        after.error() == before.error(),
    ensures
        consumed(initial, after, count + 1),
        before.tokens()[0] == initial.tokens()[count],
{
    assert(after.tokens() =~= initial.tokens().skip(count + 1));
}

proof fn lemma_take_more(all: Seq<Token>, count: int, m: int)
    requires
        0 <= count,
        0 <= m,
        count + m <= all.len(),
    ensures
        token_comments(all.take(count + m)) == token_comments(all.take(count)).add(
            token_comments(all.skip(count).take(m)),
        ),
    decreases m,
{
    if m == 0 {
        assert(all.skip(count).take(0) =~= Seq::<Token>::empty());
        assert(token_comments(all.take(count)).add(Multiset::empty()) =~= token_comments(all.take(count)));
    } else {
        lemma_take_more(all, count, m - 1);
        assert(all.take(count + m).drop_last() =~= all.take(count + m - 1));
        assert(all.skip(count).take(m).drop_last() =~= all.skip(count).take(m - 1));
        assert(all.skip(count).take(m).last() == all[count + m - 1]);
        assert(token_comments(all.take(count + m)) =~= token_comments(all.take(count)).add(
            token_comments(all.skip(count).take(m)),
        ));
    }
}

} // verus!
