//! The query language front-end: a lexer that splits the raw query text into
//! tokens and a parser that builds `column=...` filter expressions from them.
//!
//! Lexing is total: every input string produces some token sequence, and
//! validity is judged only by the parser.

use vstd::prelude::*;
use vstd::string::StrSliceExecFns;
use vstd::string::StringExecFns;

verus! {

/// Mathematical model of a token: the carried text as a sequence of chars.
pub enum TokenView {
    StringLiteral(Seq<char>),
    Identifier(Seq<char>),
    Equal,
    Comma,
}

/// One lexical unit of the query text.
#[derive(Debug, PartialEq)]
pub enum Token {
    StringLiteral(String),
    Identifier(String),
    Equal,
    Comma,
}

impl View for Token {
    type V = TokenView;

    open spec fn view(&self) -> TokenView {
        match self {
            Token::StringLiteral(s) => TokenView::StringLiteral(s@),
            Token::Identifier(s) => TokenView::Identifier(s@),
            Token::Equal => TokenView::Equal,
            Token::Comma => TokenView::Comma,
        }
    }
}

impl DeepView for Token {
    type V = TokenView;

    open spec fn deep_view(&self) -> TokenView {
        self.view()
    }
}

/// Whether a character has the Unicode `White_Space` property; a function
/// of the character alone.
pub uninterp spec fn white_space(c: char) -> bool;

/// Relies on `char::is_whitespace`: whether the character has the Unicode
/// `White_Space` property, which separates the words of a query.
#[verifier::external_body]
fn char_is_whitespace(c: char) -> (r: bool)
    ensures
        r == white_space(c),
{
    c.is_whitespace()
}

/// One scanning step per character, carrying the draft buffer and the tokens
/// emitted so far: `=` flushes the draft as an identifier, `,` as a string
/// literal, whitespace ends a word, and anything else extends the draft.
pub open spec fn spec_tokenize_from(
    s: Seq<char>,
    i: int,
    draft: Seq<char>,
    acc: Seq<TokenView>,
) -> Seq<TokenView>
    decreases s.len() - i,
{
    if i < 0 || i >= s.len() {
        if draft.len() > 0 {
            acc.push(TokenView::StringLiteral(draft))
        } else {
            acc
        }
    } else if s[i] == '=' {
        spec_tokenize_from(
            s,
            i + 1,
            Seq::empty(),
            acc.push(TokenView::Identifier(draft)).push(TokenView::Equal),
        )
    } else if s[i] == ',' {
        spec_tokenize_from(
            s,
            i + 1,
            Seq::empty(),
            acc.push(TokenView::StringLiteral(draft)).push(TokenView::Comma),
        )
    } else if white_space(s[i]) {
        spec_tokenize_from(
            s,
            i + 1,
            Seq::empty(),
            if draft.len() > 0 {
                acc.push(TokenView::StringLiteral(draft))
            } else {
                acc
            },
        )
    } else {
        spec_tokenize_from(s, i + 1, draft.push(s[i]), acc)
    }
}

/// The token sequence of a whole query text.
pub open spec fn spec_tokenize(s: Seq<char>) -> Seq<TokenView> {
    spec_tokenize_from(s, 0, Seq::empty(), Seq::empty())
}

/// Character-wise string equality, stated over the views.
pub fn str_eq(a: &str, b: &str) -> (r: bool)
    ensures
        r == (a@ == b@),
{
    let alen = a.unicode_len();
    let blen = b.unicode_len();
    if alen != blen {
        return false;
    }
    let mut i: usize = 0;
    while i < alen
        invariant
            i <= alen,
            alen == a@.len(),
            blen == b@.len(),
            alen == blen,
            forall|j: int| 0 <= j < i ==> a@[j] == b@[j],
        decreases alen - i,
    {
        if a.get_char(i) != b.get_char(i) {
            return false;
        }
        i += 1;
    }
    proof {
        assert(a@ =~= b@);
    }
    true
}

/// Splits the query text into tokens, scanning each whitespace-separated word
/// left to right. Total: every input yields a token sequence.
pub fn tokenizer(input: &str) -> (r: Vec<Token>)
    ensures
        r.deep_view() == spec_tokenize(input@),
{
    let n = input.unicode_len();
    let mut result: Vec<Token> = Vec::new();
    let mut start: usize = 0;
    let mut i: usize = 0;
    proof {
        assert(input@.subrange(0, 0) =~= Seq::<char>::empty());
        assert(result.deep_view() =~= Seq::<TokenView>::empty());
    }
    while i < n
        invariant
            n == input@.len(),
            start <= i <= n,
            spec_tokenize(input@) == spec_tokenize_from(
                input@,
                i as int,
                input@.subrange(start as int, i as int),
                result.deep_view(),
            ),
        decreases n - i,
    {
        let ghost prev = result.deep_view();
        let ghost draft = input@.subrange(start as int, i as int);
        let c = input.get_char(i);
        if c == '=' {
            let text = input.substring_char(start, i).to_owned();
            result.push(Token::Identifier(text));
            result.push(Token::Equal);
            proof {
                assert(result.deep_view() =~= prev.push(TokenView::Identifier(draft)).push(
                    TokenView::Equal,
                ));
            }
            start = i + 1;
        } else if c == ',' {
            let text = input.substring_char(start, i).to_owned();
            result.push(Token::StringLiteral(text));
            result.push(Token::Comma);
            proof {
                assert(result.deep_view() =~= prev.push(TokenView::StringLiteral(draft)).push(
                    TokenView::Comma,
                ));
            }
            start = i + 1;
        } else if char_is_whitespace(c) {
            if start < i {
                let text = input.substring_char(start, i).to_owned();
                result.push(Token::StringLiteral(text));
                proof {
                    assert(result.deep_view() =~= prev.push(TokenView::StringLiteral(draft)));
                }
            }
            start = i + 1;
        } else {
            proof {
                assert(input@.subrange(start as int, i + 1) =~= draft.push(input@[i as int]));
            }
        }
        i += 1;
        proof {
            assert(input@.subrange(start as int, start as int) =~= Seq::<char>::empty());
        }
    }
    if start < n {
        let ghost prev = result.deep_view();
        let text = input.substring_char(start, n).to_owned();
        result.push(Token::StringLiteral(text));
        proof {
            assert(result.deep_view() =~= prev.push(
                TokenView::StringLiteral(input@.subrange(start as int, n as int)),
            ));
        }
    }
    result
}

/// One scanning step per character for the comma-only lexer: `,` flushes a
/// non-empty draft as a string literal and emits a comma; any other character
/// extends the draft.
pub open spec fn spec_split_commas_from(
    s: Seq<char>,
    i: int,
    draft: Seq<char>,
    acc: Seq<TokenView>,
) -> Seq<TokenView>
    decreases s.len() - i,
{
    if i < 0 || i >= s.len() {
        if draft.len() > 0 {
            acc.push(TokenView::StringLiteral(draft))
        } else {
            acc
        }
    } else if s[i] == ',' {
        spec_split_commas_from(
            s,
            i + 1,
            Seq::empty(),
            (if draft.len() > 0 {
                acc.push(TokenView::StringLiteral(draft))
            } else {
                acc
            }).push(TokenView::Comma),
        )
    } else {
        spec_split_commas_from(s, i + 1, draft.push(s[i]), acc)
    }
}

/// The token sequence of a comma-separated value list.
pub open spec fn spec_split_commas(s: Seq<char>) -> Seq<TokenView> {
    spec_split_commas_from(s, 0, Seq::empty(), Seq::empty())
}

/// Splits a plain value list on commas alone: maximal comma-free runs become
/// string literals, and each comma is emitted as its own token.
pub fn string_tokenizer(input: &str) -> (r: Vec<Token>)
    ensures
        r.deep_view() == spec_split_commas(input@),
{
    let n = input.unicode_len();
    let mut result: Vec<Token> = Vec::new();
    let mut start: usize = 0;
    let mut i: usize = 0;
    proof {
        assert(input@.subrange(0, 0) =~= Seq::<char>::empty());
        assert(result.deep_view() =~= Seq::<TokenView>::empty());
    }
    while i < n
        invariant
            n == input@.len(),
            start <= i <= n,
            spec_split_commas(input@) == spec_split_commas_from(
                input@,
                i as int,
                input@.subrange(start as int, i as int),
                result.deep_view(),
            ),
        decreases n - i,
    {
        let ghost prev = result.deep_view();
        let ghost draft = input@.subrange(start as int, i as int);
        let c = input.get_char(i);
        if c == ',' {
            if start < i {
                let text = input.substring_char(start, i).to_owned();
                result.push(Token::StringLiteral(text));
            }
            result.push(Token::Comma);
            proof {
                assert(result.deep_view() =~= (if draft.len() > 0 {
                    prev.push(TokenView::StringLiteral(draft))
                } else {
                    prev
                }).push(TokenView::Comma));
            }
            start = i + 1;
        } else {
            proof {
                assert(input@.subrange(start as int, i + 1) =~= draft.push(input@[i as int]));
            }
        }
        i += 1;
        proof {
            assert(input@.subrange(start as int, start as int) =~= Seq::<char>::empty());
        }
    }
    if start < n {
        let ghost prev = result.deep_view();
        let text = input.substring_char(start, n).to_owned();
        result.push(Token::StringLiteral(text));
        proof {
            assert(result.deep_view() =~= prev.push(
                TokenView::StringLiteral(input@.subrange(start as int, n as int)),
            ));
        }
    }
    result
}

/// Two runs of the lexer on the same text give the same tokens: the result is
/// a function of the input alone.
pub proof fn lemma_tokenize_deterministic(s: Seq<char>, r1: Seq<TokenView>, r2: Seq<TokenView>)
    requires
        r1 == spec_tokenize(s),
        r2 == spec_tokenize(s),
    ensures
        r1 == r2,
{
}

/// Mathematical model of an expression tree.
#[verifier::ext_equal]
pub enum ExprView {
    Arg(Seq<char>),
    ArgList(Seq<ExprView>),
    ColumnFilter(Box<ExprView>),
}

/// An expression tree describing one or more `column=...` filter clauses:
/// a `ColumnFilter` wraps an `ArgList` of `Arg` values, one filter per clause.
#[derive(Debug, PartialEq)]
pub enum Expr {
    Arg(String),
    ArgList(Vec<Expr>),
    ColumnFilter(Box<Expr>),
}

impl DeepView for Expr {
    type V = ExprView;

    open spec fn deep_view(&self) -> ExprView
        decreases self,
    {
        match self {
            Expr::Arg(s) => ExprView::Arg(s@),
            Expr::ArgList(items) => ExprView::ArgList(
                Seq::new(
                    items@.len(),
                    |i: int|
                        if 0 <= i < items@.len() {
                            items@[i].deep_view()
                        } else {
                            ExprView::Arg(Seq::empty())
                        },
                ),
            ),
            Expr::ColumnFilter(inner) => ExprView::ColumnFilter(Box::new((**inner).deep_view())),
        }
    }
}

/// Mathematical model of a parse error.
pub enum ParseErrorView {
    UnexpectedToken,
    UnknownIdentifier(Seq<char>),
    MissingEqual,
}

/// Why a token sequence was rejected: a token stood where an identifier was
/// required, the identifier before `=` was not `column`, or `=` was absent.
#[derive(Debug, PartialEq)]
pub enum ParseError {
    UnexpectedToken,
    UnknownIdentifier(String),
    MissingEqual,
}

impl DeepView for ParseError {
    type V = ParseErrorView;

    open spec fn deep_view(&self) -> ParseErrorView {
        match self {
            ParseError::UnexpectedToken => ParseErrorView::UnexpectedToken,
            ParseError::UnknownIdentifier(name) => ParseErrorView::UnknownIdentifier(name@),
            ParseError::MissingEqual => ParseErrorView::MissingEqual,
        }
    }
}

impl ParseError {
    /// The diagnostic text of each error kind.
    pub open spec fn spec_message(&self) -> Seq<char> {
        match self {
            ParseError::UnexpectedToken => "Invalid token not match"@,
            ParseError::UnknownIdentifier(name) => "Not found "@ + name@,
            ParseError::MissingEqual => "Invalid token"@,
        }
    }

    /// Renders the error as its diagnostic log line.
    pub fn message(&self) -> (r: String)
        ensures
            r@ == self.spec_message(),
    {
        match self {
            ParseError::UnexpectedToken => String::from_str("Invalid token not match"),
            ParseError::UnknownIdentifier(name) => String::from_str("Not found ").concat(
                name.as_str(),
            ),
            ParseError::MissingEqual => String::from_str("Invalid token"),
        }
    }
}

/// Where the run of argument tokens (string literals and commas) that starts
/// at `i` ends: the first position at or after `i` holding neither.
pub open spec fn args_end(ts: Seq<TokenView>, i: int) -> int
    decreases ts.len() - i,
{
    if 0 <= i < ts.len() && (ts[i] is StringLiteral || ts[i] is Comma) {
        args_end(ts, i + 1)
    } else {
        i
    }
}

pub proof fn lemma_args_end_bounds(ts: Seq<TokenView>, i: int)
    requires
        0 <= i <= ts.len(),
    ensures
        i <= args_end(ts, i) <= ts.len(),
    decreases ts.len() - i,
{
    if i < ts.len() && (ts[i] is StringLiteral || ts[i] is Comma) {
        lemma_args_end_bounds(ts, i + 1);
    }
}

/// The `Arg` nodes collected from the run of argument tokens starting at `i`:
/// each string literal becomes an `Arg`, each comma is discarded.
pub open spec fn args_of(ts: Seq<TokenView>, i: int) -> Seq<ExprView>
    decreases ts.len() - i,
{
    if 0 <= i < ts.len() {
        match ts[i] {
            TokenView::StringLiteral(v) => seq![ExprView::Arg(v)] + args_of(ts, i + 1),
            TokenView::Comma => args_of(ts, i + 1),
            _ => Seq::empty(),
        }
    } else {
        Seq::empty()
    }
}

/// The parse of the token suffix starting at `i`: one `ColumnFilter` clause
/// per `column=` head, or the error on which the whole parse fails.
pub open spec fn spec_parse_tokens_from(ts: Seq<TokenView>, i: int) -> Result<
    Seq<ExprView>,
    ParseErrorView,
>
    decreases ts.len() - i, 1int,
{
    if !(0 <= i < ts.len()) {
        Ok(Seq::empty())
    } else {
        match ts[i] {
            TokenView::Identifier(name) => {
                if name != "column"@ {
                    Err(ParseErrorView::UnknownIdentifier(name))
                } else if !(i + 1 < ts.len() && ts[i + 1] is Equal) {
                    Err(ParseErrorView::MissingEqual)
                } else {
                    spec_parse_clause_tail(ts, i)
                }
            },
            _ => Err(ParseErrorView::UnexpectedToken),
        }
    }
}

/// The parse after a well-formed `column=` head at `i`: wraps the argument
/// run after the `=` in a filter node and parses on behind it.
pub open spec fn spec_parse_clause_tail(ts: Seq<TokenView>, i: int) -> Result<
    Seq<ExprView>,
    ParseErrorView,
>
    decreases ts.len() - i, 0int,
    when 0 <= i && i + 2 <= ts.len()
{
    {
        let clause = ExprView::ColumnFilter(Box::new(ExprView::ArgList(args_of(ts, i + 2))));
        let rest = {
            proof {
                lemma_args_end_bounds(ts, i + 2);
            }
            spec_parse_tokens_from(ts, args_end(ts, i + 2))
        };
        match rest {
            Ok(es) => Ok(seq![clause] + es),
            Err(e) => Err(e),
        }
    }
}

/// The parse of a whole token sequence.
pub open spec fn spec_parse_tokens(ts: Seq<TokenView>) -> Result<Seq<ExprView>, ParseErrorView> {
    spec_parse_tokens_from(ts, 0)
}

/// The model of an executable parse result.
pub open spec fn parse_result_view(r: Result<Vec<Expr>, ParseError>) -> Result<
    Seq<ExprView>,
    ParseErrorView,
> {
    match r {
        Ok(es) => Ok(es.deep_view()),
        Err(e) => Err(e.deep_view()),
    }
}

/// Builds the expression list of a token sequence: a single forward pass that
/// reads a `column=` head, collects the following run of values and commas,
/// and repeats until the tokens are exhausted or one of them is rejected.
pub fn parse_tokens(tokens: Vec<Token>) -> (r: Result<Vec<Expr>, ParseError>)
    ensures
        parse_result_view(r) == spec_parse_tokens(tokens.deep_view()),
{
    let ghost ts = tokens.deep_view();
    let n = tokens.len();
    let mut exprs: Vec<Expr> = Vec::new();
    let mut i: usize = 0;
    proof {
        assert(exprs.deep_view() =~= Seq::<ExprView>::empty());
    }
    while i < n
        invariant
            n == tokens.len(),
            ts == tokens.deep_view(),
            i <= n,
            spec_parse_tokens(ts) == (match spec_parse_tokens_from(ts, i as int) {
                Ok(rest) => Ok::<Seq<ExprView>, ParseErrorView>(exprs.deep_view() + rest),
                Err(e) => Err::<Seq<ExprView>, ParseErrorView>(e),
            }),
        decreases n - i,
    {
        proof {
            assert(ts[i as int] == tokens@[i as int].deep_view());
        }
        match &tokens[i] {
            Token::Identifier(name) => {
                if !str_eq(name.as_str(), "column") {
                    return Err(ParseError::UnknownIdentifier(name.clone()));
                }
                let head_ok = i + 1 < n && matches!(&tokens[i + 1], Token::Equal);
                proof {
                    if i + 1 < n {
                        assert(ts[i + 1] == tokens@[i + 1].deep_view());
                    }
                }
                if !head_ok {
                    return Err(ParseError::MissingEqual);
                }
                let mut args: Vec<Expr> = Vec::new();
                let mut j = i + 2;
                let mut stop = false;
                proof {
                    assert(args.deep_view() =~= Seq::<ExprView>::empty());
                    assert(args_of(ts, i + 2) =~= args.deep_view() + args_of(ts, j as int));
                }
                while !stop && j < n
                    invariant
                        n == tokens.len(),
                        ts == tokens.deep_view(),
                        i + 2 <= j <= n,
                        args_of(ts, i + 2) == args.deep_view() + args_of(ts, j as int),
                        args_end(ts, i + 2) == args_end(ts, j as int),
                        stop ==> !(ts[j as int] is StringLiteral || ts[j as int] is Comma),
                    decreases n - j, if stop { 0int } else { 1int },
                {
                    proof {
                        assert(ts[j as int] == tokens@[j as int].deep_view());
                    }
                    let ghost prev = args.deep_view();
                    match &tokens[j] {
                        Token::StringLiteral(value) => {
                            args.push(Expr::Arg(value.clone()));
                            proof {
                                assert(args.deep_view() =~= prev.push(
                                    ExprView::Arg(tokens@[j as int]->StringLiteral_0@),
                                ));
                                assert(args_of(ts, i + 2) =~= args.deep_view() + args_of(
                                    ts,
                                    j + 1,
                                ));
                            }
                            j += 1;
                        },
                        Token::Comma => {
                            j += 1;
                        },
                        _ => {
                            stop = true;
                        },
                    }
                }
                proof {
                    if !stop {
                        assert(j == n);
                    }
                    assert(args_of(ts, j as int) =~= Seq::<ExprView>::empty());
                    assert(args_end(ts, j as int) == j as int);
                    assert(args.deep_view() =~= args_of(ts, i + 2));
                }
                let ghost args_dv = args.deep_view();
                let ghost argsv = args@;
                let inner = Expr::ArgList(args);
                proof {
                    let got = inner.deep_view();
                    assert(got is ArgList);
                    assert forall|k: int| 0 <= k < argsv.len() implies got->ArgList_0[k]
                        == args_dv[k] by {
                        assert(got->ArgList_0[k] == argsv[k].deep_view());
                        assert(args_dv[k] == argsv[k].deep_view());
                    }
                    assert(got->ArgList_0 =~= args_dv);
                    assert(inner.deep_view() == ExprView::ArgList(args_dv));
                }
                let ghost inner_dv = inner.deep_view();
                let node = Expr::ColumnFilter(Box::new(inner));
                proof {
                    assert(node.deep_view() == ExprView::ColumnFilter(Box::new(inner_dv)));
                }
                let ghost node_dv = node.deep_view();
                let ghost prev_exprs = exprs.deep_view();
                exprs.push(node);
                proof {
                    let clause = ExprView::ColumnFilter(
                        Box::new(ExprView::ArgList(args_of(ts, i + 2))),
                    );
                    assert(node_dv == clause);
                    assert(exprs.deep_view() =~= prev_exprs.push(clause));
                    lemma_args_end_bounds(ts, i + 2);
                    if spec_parse_tokens_from(ts, j as int) is Ok {
                        let rest = spec_parse_tokens_from(ts, j as int)->Ok_0;
                        assert(prev_exprs + (seq![clause] + rest) =~= exprs.deep_view() + rest);
                    }
                }
                i = j;
            },
            _ => {
                return Err(ParseError::UnexpectedToken);
            },
        }
    }
    Ok(exprs)
}

/// Lexes and parses a whole query text.
pub fn parse(input: &str) -> (r: Result<Vec<Expr>, ParseError>)
    ensures
        parse_result_view(r) == spec_parse_tokens(spec_tokenize(input@)),
{
    let tokens = tokenizer(input);
    parse_tokens(tokens)
}

} // verus!

