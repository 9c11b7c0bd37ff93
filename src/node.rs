//! The concrete syntax tree: statements, comments and blank lines.
use vstd::prelude::*;

use crate::lexing::{Token, TokenType};
use crate::text::{regex_finds, regex_is_match, str_equal};

verus! {

/// `identifier ":" identifier`, the shape of an extension statement's keyword
pub const EXT_KEYWORD_PATTERN: &'static str =
    r"^[a-zA-Z_][a-zA-Z0-9\-_.]*:[a-zA-Z_][a-zA-Z0-9\-_.]*$";

/// The statement keywords that the language defines
pub open spec fn statement_keywords() -> Seq<Seq<char>> {
    seq![
        "action"@, "anydata"@, "anyxml"@, "argument"@, "augment"@, "base"@, "belongs-to"@,
        "bit"@, "case"@, "choice"@, "config"@, "contact"@, "container"@, "default"@,
        "description"@, "deviate"@, "deviation"@, "enum"@, "error-app-tag"@, "error-message"@,
        "extension"@, "feature"@, "fraction-digits"@, "grouping"@, "identity"@, "if-feature"@,
        "import"@, "include"@, "input"@, "key"@, "leaf"@, "leaf-list"@, "length"@, "list"@,
        "mandatory"@, "max-elements"@, "min-elements"@, "modifier"@, "module"@, "must"@,
        "namespace"@, "notification"@, "ordered-by"@, "organization"@, "output"@, "path"@,
        "pattern"@, "position"@, "prefix"@, "presence"@, "range"@, "reference"@, "refine"@,
        "require-instance"@, "revision"@, "revision-date"@, "rpc"@, "status"@, "submodule"@,
        "type"@, "typedef"@, "unique"@, "units"@, "uses"@, "value"@, "when"@, "yang-version"@,
        "yin-element"@,
    ]
}

/// Whether `text` is one of the language's statement keywords
pub fn is_statement_keyword(text: &str) -> (r: bool)
    ensures
        r == statement_keywords().contains(text@),
{
    let keywords: Vec<&'static str> = vec![
        "action", "anydata", "anyxml", "argument", "augment", "base", "belongs-to", "bit", "case",
        "choice", "config", "contact", "container", "default", "description", "deviate",
        "deviation", "enum", "error-app-tag", "error-message", "extension", "feature",
        "fraction-digits", "grouping", "identity", "if-feature", "import", "include", "input",
        "key", "leaf", "leaf-list", "length", "list", "mandatory", "max-elements",
        "min-elements", "modifier", "module", "must", "namespace", "notification", "ordered-by",
        "organization", "output", "path", "pattern", "position", "prefix", "presence", "range",
        "reference", "refine", "require-instance", "revision", "revision-date", "rpc", "status",
        "submodule", "type", "typedef", "unique", "units", "uses", "value", "when",
        "yang-version", "yin-element",
    ];
    let ghost views = keywords@.map_values(|k: &str| k@);
    assert(views =~= statement_keywords());
    let mut i: usize = 0;
    while i < keywords.len()
        invariant
            i <= keywords@.len(),
            views == keywords@.map_values(|k: &str| k@),
            views == statement_keywords(),
            forall|j: int| 0 <= j < i ==> views[j] != text@,
        decreases keywords@.len() - i,
    {
        if str_equal(keywords[i], text) {
            assert(views[i as int] == text@);
            return true;
        }
        i = i + 1;
    }
    proof {
        if statement_keywords().contains(text@) {
            let j = choose|j: int| 0 <= j < views.len() && views[j] == text@;
            assert(views[j] == text@);
        }
    }
    false
}

/// One node of a sibling list
#[derive(Debug, PartialEq, Eq)]
pub enum Node {
    Statement(Statement),
    /// A blank line; holds the line break that made it
    EmptyLine(String),
    Comment(String),
}

/// Questions asked of nodes
pub trait NodeHelpers {
    spec fn spec_is_empty_line(&self) -> bool;

    spec fn spec_is_comment(&self) -> bool;

    fn is_empty_line(&self) -> (r: bool)
        ensures
            r == self.spec_is_empty_line(),
    ;

    fn is_comment(&self) -> (r: bool)
        ensures
            r == self.spec_is_comment(),
    ;
}

impl NodeHelpers for Node {
    open spec fn spec_is_empty_line(&self) -> bool {
        self is EmptyLine
    }

    open spec fn spec_is_comment(&self) -> bool {
        self is Comment
    }

    fn is_empty_line(&self) -> (r: bool) {
        match self {
            Node::EmptyLine(_) => true,
            _ => false,
        }
    }

    fn is_comment(&self) -> (r: bool) {
        match self {
            Node::Comment(_) => true,
            _ => false,
        }
    }
}

impl Node {
    /// The value of a statement node, if it has one
    pub fn node_value(&self) -> (r: Option<&NodeValue>)
        ensures
            match self {
                Node::Statement(st) => match st.value {
                    Some(v) => r == Some(&v),
                    None => r is None,
                },
                _ => r is None,
            },
    {
        match self {
            Node::Statement(statement) => match &statement.value {
                Some(v) => Some(v),
                None => None,
            },
            _ => None,
        }
    }
}

/// The tree that a parse gives: a keyword-less block holding the top-level nodes
#[derive(Debug, PartialEq, Eq)]
pub struct RootNode {
    pub children: Vec<Node>,
}

#[derive(Debug, PartialEq, Eq)]
pub struct Statement {
    pub keyword: StatementKeyword,
    /// Comment(s) between the statement keyword and value
    pub keyword_comments: Vec<String>,
    pub value: Option<NodeValue>,
    /// Comment(s) between the value and block
    pub value_comments: Vec<String>,
    /// `Some` for a block (possibly empty), `None` for a statement ended by `;`
    pub children: Option<Vec<Node>>,
    /// Comments after the statement on the same line: after the semicolon, or after the opening
    /// brace of a block
    pub post_comments: Vec<String>,
}

impl Statement {
    /// A statement with this keyword and nothing else
    pub fn new(keyword: &str) -> (r: Self)
        ensures
            r.keyword.classified_from(keyword@),
            r.keyword_comments@.len() == 0,
            r.value is None,
            r.value_comments@.len() == 0,
            r.children is None,
            r.post_comments@.len() == 0,
    {
        Statement {
            keyword: StatementKeyword::from_text(keyword),
            keyword_comments: Vec::new(),
            value: None,
            value_comments: Vec::new(),
            children: None,
            post_comments: Vec::new(),
        }
    }

    pub fn with_keyword_comments(self, keyword_comments: Vec<String>) -> (r: Self)
        ensures
            r == (Statement { keyword_comments, ..self }),
    {
        Statement { keyword_comments, ..self }
    }

    pub fn with_value(self, value: NodeValue) -> (r: Self)
        ensures
            r == (Statement { value: Some(value), ..self }),
    {
        Statement { value: Some(value), ..self }
    }

    pub fn with_value_comments(self, value_comments: Vec<String>) -> (r: Self)
        ensures
            r == (Statement { value_comments, ..self }),
    {
        Statement { value_comments, ..self }
    }

    pub fn with_post_comments(self, post_comments: Vec<String>) -> (r: Self)
        ensures
            r == (Statement { post_comments, ..self }),
    {
        Statement { post_comments, ..self }
    }
}

/// A statement keyword: one the language defines, an extension's `prefix:name`, or anything
/// else, which is kept as it is
#[derive(Debug, PartialEq, Eq)]
pub enum StatementKeyword {
    Keyword(String),
    ExtensionKeyword(String),
    Invalid(String),
}

impl StatementKeyword {
    pub open spec fn spec_text(&self) -> Seq<char> {
        match self {
            StatementKeyword::Keyword(text) => text@,
            StatementKeyword::ExtensionKeyword(text) => text@,
            StatementKeyword::Invalid(text) => text@,
        }
    }

    /// This keyword is what `text` is classified as
    pub open spec fn classified_from(&self, text: Seq<char>) -> bool {
        &&& self.spec_text() == text
        &&& if statement_keywords().contains(text) {
            self is Keyword
        } else if regex_finds(EXT_KEYWORD_PATTERN@, text) {
            self is ExtensionKeyword
        } else {
            self is Invalid
        }
    }

    /// Shortcut for reading the keyword text
    pub fn text(&self) -> (r: &str)
        ensures
            r@ == self.spec_text(),
    {
        match self {
            StatementKeyword::Keyword(text) => text.as_str(),
            StatementKeyword::ExtensionKeyword(text) => text.as_str(),
            StatementKeyword::Invalid(text) => text.as_str(),
        }
    }

    /// Classifies a keyword
    pub fn from_text(text: &str) -> (r: Self)
        ensures
            r.classified_from(text@),
    {
        if is_statement_keyword(text) {
            StatementKeyword::Keyword(text.to_string())
        } else if regex_is_match(EXT_KEYWORD_PATTERN, text) {
            StatementKeyword::ExtensionKeyword(text.to_string())
        } else {
            StatementKeyword::Invalid(text.to_string())
        }
    }
}

/// The value part of a statement
#[derive(Debug, PartialEq, Eq)]
pub enum NodeValue {
    /// A quoted string, quote characters included
    String(String),
    /// Two or more quoted strings joined by `+`, each with the comments that follow it
    StringConcatenation(Vec<(String, Vec<String>)>),
    Number(String),
    Date(String),
    /// Any value not obviously identifiable as a quoted string, number or date
    Other(String),
}

impl NodeValue {
    /// The value that a token stands for
    pub fn from_token(token: &Token) -> (r: Self)
        ensures
            r.from_token_spec(token),
    {
        let text = token.text.clone();
        match token.token_type {
            TokenType::String => NodeValue::String(text),
            TokenType::Number => NodeValue::Number(text),
            TokenType::Date => NodeValue::Date(text),
            _ => NodeValue::Other(text),
        }
    }

    pub open spec fn from_token_spec(&self, token: &Token) -> bool {
        match token.token_type {
            TokenType::String => self matches NodeValue::String(t) && t@ == token.text@,
            TokenType::Number => self matches NodeValue::Number(t) && t@ == token.text@,
            TokenType::Date => self matches NodeValue::Date(t) && t@ == token.text@,
            _ => self matches NodeValue::Other(t) && t@ == token.text@,
        }
    }
}

} // verus!
