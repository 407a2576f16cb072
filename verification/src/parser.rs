//! The tokenizer and recursive-descent parser that turn a query string
//! into a boolean expression tree.
//!
//! A query is a tree of [`Node`]s.  A leaf node matches a text when its
//! keyword occurs in the text; `AND`, `OR` and `NOT` nodes combine their
//! children with the usual boolean meaning.  Precedence is `!` over `&`
//! over `|`, both binary operators associate to the left, and
//! parentheses group explicitly.

use std::collections::VecDeque;
use vstd::prelude::*;

use crate::matcher::{fold_bytes, kmp_table, table_valid};
use crate::matcher::fold_vec;
use vstd::utf8::encode_utf8;

verus! {

/// The reason a query failed to compile.
#[derive(Clone, Copy, Debug, PartialEq, Eq, Structural)]
pub enum ParsingError {
    /// A bare alphabetic character stood outside a quoted literal.
    UnexpectedLetter,
    /// An unrecognized symbol stood outside a quoted literal.
    UnexpectedCharacter,
    /// The input ended while a quoted literal was still open.
    UnterminatedQuote,
    /// A `(` had no matching `)`.
    UnclosedGroup,
    /// A token stood where the grammar does not allow it.
    UnexpectedToken,
    /// The token stream ended in the middle of an expression.
    UnexpectedEndOfInput,
}

/// One lexical element of a query string.
pub enum Token {
    AND,
    OR,
    NOT,
    LParen,
    RParen,
    /// The bytes between a pair of matching quote characters, verbatim.
    Keyword(Vec<u8>),
}

/// The mathematical shape of a [`Token`]: a keyword is just its byte
/// sequence.
pub ghost enum TokenModel {
    And,
    Or,
    Not,
    LParen,
    RParen,
    Keyword(Seq<u8>),
}

impl View for Token {
    type V = TokenModel;

    open spec fn view(&self) -> TokenModel {
        match self {
            Token::AND => TokenModel::And,
            Token::OR => TokenModel::Or,
            Token::NOT => TokenModel::Not,
            Token::LParen => TokenModel::LParen,
            Token::RParen => TokenModel::RParen,
            Token::Keyword(kw) => TokenModel::Keyword(kw@),
        }
    }
}

/// The token sequence a sequence of [`Token`]s stands for.
pub open spec fn tokens_view(ts: Seq<Token>) -> Seq<TokenModel> {
    ts.map_values(|t: Token| t@)
}

/// Every keyword among the tokens is at most `bound` bytes long.
pub open spec fn tokens_fit(ts: Seq<TokenModel>, bound: int) -> bool {
    forall|k: int|
        0 <= k < ts.len() ==> (#[trigger] ts[k] matches TokenModel::Keyword(kw) ==> kw.len()
            <= bound)
}

/// The byte is an ASCII letter.
pub open spec fn is_letter(b: u8) -> bool {
    (65 <= b && b <= 90) || (97 <= b && b <= 122)
}

/// The byte is blank: space, tab, newline or carriage return.
pub open spec fn is_blank(b: u8) -> bool {
    b == 32 || b == 9 || b == 10 || b == 13
}

/// The byte opens or closes a keyword literal: `"` or `'`.
pub open spec fn is_quote(b: u8) -> bool {
    b == 34 || b == 39
}

/// One left-to-right scan over the remaining input bytes.  `quote` holds
/// the opening quote character while a keyword literal is open, `acc`
/// the bytes of that literal so far, and `out` the tokens already made.
pub open spec fn spec_tokenize_from(
    s: Seq<u8>,
    quote: Option<u8>,
    acc: Seq<u8>,
    out: Seq<TokenModel>,
) -> Result<Seq<TokenModel>, ParsingError>
    decreases s.len(),
{
    if s.len() == 0 {
        match quote {
            Some(_) => Err(ParsingError::UnterminatedQuote),
            None => Ok(out),
        }
    } else {
        let b = s[0];
        let rest = s.drop_first();
        match quote {
            Some(q) => {
                if b == q {
                    spec_tokenize_from(
                        rest,
                        None,
                        Seq::empty(),
                        out.push(TokenModel::Keyword(acc)),
                    )
                } else {
                    spec_tokenize_from(rest, Some(q), acc.push(b), out)
                }
            },
            None => {
                if is_quote(b) {
                    spec_tokenize_from(rest, Some(b), Seq::empty(), out)
                } else if is_letter(b) {
                    Err(ParsingError::UnexpectedLetter)
                } else if b == 38 {
                    spec_tokenize_from(rest, None, acc, out.push(TokenModel::And))
                } else if b == 124 {
                    spec_tokenize_from(rest, None, acc, out.push(TokenModel::Or))
                } else if b == 33 {
                    spec_tokenize_from(rest, None, acc, out.push(TokenModel::Not))
                } else if b == 40 {
                    spec_tokenize_from(rest, None, acc, out.push(TokenModel::LParen))
                } else if b == 41 {
                    spec_tokenize_from(rest, None, acc, out.push(TokenModel::RParen))
                } else if is_blank(b) {
                    spec_tokenize_from(rest, None, acc, out)
                } else {
                    Err(ParsingError::UnexpectedCharacter)
                }
            },
        }
    }
}

/// The token sequence of a query string's bytes, or the first lexical
/// error.
pub open spec fn spec_tokenize(s: Seq<u8>) -> Result<Seq<TokenModel>, ParsingError> {
    spec_tokenize_from(s, None, Seq::empty(), Seq::empty())
}

/// Represents a node of a compiled query tree.
pub enum Node {
    AND(Box<Node>, Box<Node>),
    OR(Box<Node>, Box<Node>),
    NOT(Box<Node>),
    /// A keyword to search for in the text, lower-cased at parse time,
    /// together with its precomputed failure table.
    Leaf(Vec<u8>, Vec<i64>),
}

/// The mathematical shape of a [`Node`]: the failure tables are left
/// out, a leaf is just its keyword bytes.
pub ghost enum NodeModel {
    And(Box<NodeModel>, Box<NodeModel>),
    Or(Box<NodeModel>, Box<NodeModel>),
    Not(Box<NodeModel>),
    Leaf(Seq<u8>),
}

impl Node {
    /// The boolean expression this node stands for.
    pub open spec fn model(self) -> NodeModel
        decreases self,
    {
        match self {
            Node::AND(a, b) => NodeModel::And(Box::new(a.model()), Box::new(b.model())),
            Node::OR(a, b) => NodeModel::Or(Box::new(a.model()), Box::new(b.model())),
            Node::NOT(a) => NodeModel::Not(Box::new(a.model())),
            Node::Leaf(kw, _) => NodeModel::Leaf(kw@),
        }
    }

    /// Every leaf carries the failure table of its keyword, and every
    /// keyword is short enough for the table's index type.
    pub open spec fn wf(self) -> bool
        decreases self,
    {
        match self {
            Node::AND(a, b) => a.wf() && b.wf(),
            Node::OR(a, b) => a.wf() && b.wf(),
            Node::NOT(a) => a.wf(),
            Node::Leaf(kw, tab) => table_valid(kw@, tab@) && kw@.len() <= 0x7fff_ffff_ffff_ffff,
        }
    }
}

/// `factor := '!' factor | keyword | '(' expression ')'`.  Returns the
/// parsed node and the unconsumed tokens, or the first error.
pub open spec fn spec_factor(ts: Seq<TokenModel>) -> Result<
    (NodeModel, Seq<TokenModel>),
    ParsingError,
>
    decreases ts.len(), 0int,
{
    if ts.len() == 0 {
        Err(ParsingError::UnexpectedEndOfInput)
    } else {
        match ts[0] {
            TokenModel::Not => match spec_factor(ts.drop_first()) {
                Ok((n, rem)) => Ok((NodeModel::Not(Box::new(n)), rem)),
                Err(e) => Err(e),
            },
            TokenModel::Keyword(kw) => Ok(
                (NodeModel::Leaf(fold_bytes(kw)), ts.drop_first()),
            ),
            TokenModel::LParen => match spec_expression(ts.drop_first()) {
                Ok((n, rem)) => {
                    if rem.len() > 0 && rem[0] is RParen {
                        Ok((n, rem.drop_first()))
                    } else {
                        Err(ParsingError::UnclosedGroup)
                    }
                },
                Err(e) => Err(e),
            },
            _ => Err(ParsingError::UnexpectedToken),
        }
    }
}

/// Folds `('&' factor)*` onto `left`, associating to the left.
pub open spec fn spec_term_rest(left: NodeModel, ts: Seq<TokenModel>) -> Result<
    (NodeModel, Seq<TokenModel>),
    ParsingError,
>
    decreases ts.len(), 1int,
{
    if ts.len() > 0 && ts[0] is And {
        match spec_factor(ts.drop_first()) {
            Ok((right, rem)) => {
                if rem.len() < ts.len() {
                    spec_term_rest(NodeModel::And(Box::new(left), Box::new(right)), rem)
                } else {
                    // a parsed factor always consumes at least one token;
                    // this branch only keeps the recursion visibly well
                    // founded
                    Err(ParsingError::UnexpectedToken)
                }
            },
            Err(e) => Err(e),
        }
    } else {
        Ok((left, ts))
    }
}

/// `term := factor ('&' factor)*`.
pub open spec fn spec_term(ts: Seq<TokenModel>) -> Result<
    (NodeModel, Seq<TokenModel>),
    ParsingError,
>
    decreases ts.len(), 2int,
{
    match spec_factor(ts) {
        Ok((left, rem)) => {
            if rem.len() <= ts.len() {
                spec_term_rest(left, rem)
            } else {
                // a parsed factor never leaves more tokens than it was
                // given; this branch only keeps the recursion visibly
                // well founded
                Err(ParsingError::UnexpectedToken)
            }
        },
        Err(e) => Err(e),
    }
}

/// Folds `('|' term)*` onto `left`, associating to the left.
pub open spec fn spec_expression_rest(left: NodeModel, ts: Seq<TokenModel>) -> Result<
    (NodeModel, Seq<TokenModel>),
    ParsingError,
>
    decreases ts.len(), 3int,
{
    if ts.len() > 0 && ts[0] is Or {
        match spec_term(ts.drop_first()) {
            Ok((right, rem)) => {
                if rem.len() < ts.len() {
                    spec_expression_rest(NodeModel::Or(Box::new(left), Box::new(right)), rem)
                } else {
                    // a parsed term always consumes at least one token;
                    // this branch only keeps the recursion visibly well
                    // founded
                    Err(ParsingError::UnexpectedToken)
                }
            },
            Err(e) => Err(e),
        }
    } else {
        Ok((left, ts))
    }
}

/// `expression := term ('|' term)*`.
pub open spec fn spec_expression(ts: Seq<TokenModel>) -> Result<
    (NodeModel, Seq<TokenModel>),
    ParsingError,
>
    decreases ts.len(), 4int,
{
    match spec_term(ts) {
        Ok((left, rem)) => {
            if rem.len() <= ts.len() {
                spec_expression_rest(left, rem)
            } else {
                // a parsed term never leaves more tokens than it was
                // given; this branch only keeps the recursion visibly
                // well founded
                Err(ParsingError::UnexpectedToken)
            }
        },
        Err(e) => Err(e),
    }
}

/// Parses a whole token sequence.  Tokens that remain after the
/// outermost expression are ignored, matching the tolerant top level of
/// the grammar.
pub open spec fn spec_parse(ts: Seq<TokenModel>) -> Result<NodeModel, ParsingError> {
    match spec_expression(ts) {
        Ok((n, _)) => Ok(n),
        Err(e) => Err(e),
    }
}

/// Compiling a query string: tokenize its bytes, then parse the tokens.
pub open spec fn spec_compile(s: Seq<u8>) -> Result<NodeModel, ParsingError> {
    match spec_tokenize(s) {
        Ok(ts) => spec_parse(ts),
        Err(e) => Err(e),
    }
}

proof fn lemma_tokens_view_push(ts: Seq<Token>, t: Token)
    ensures
        tokens_view(ts.push(t)) =~= tokens_view(ts).push(t@),
{
}

proof fn lemma_tokens_view_drop(ts: Seq<Token>)
    requires
        ts.len() > 0,
    ensures
        tokens_view(ts.subrange(1, ts.len() as int)) =~= tokens_view(ts).drop_first(),
{
}

/// Splits a query string into tokens, or reports the first lexical
/// error: quoted keywords, the operators `& | !`, parentheses, and
/// insignificant blanks.
pub fn tokenise_query(query: String) -> (r: Result<VecDeque<Token>, ParsingError>)
    ensures
        match r {
            Ok(ts) => spec_tokenize(encode_utf8(query@)) == Ok::<_, ParsingError>(
                tokens_view(ts@),
            ) && tokens_fit(tokens_view(ts@), encode_utf8(query@).len() as int),
            Err(e) => spec_tokenize(encode_utf8(query@)) == Err::<Seq<TokenModel>, _>(e),
        },
{
    let bytes: &[u8] = query.as_str().as_bytes();
    let ghost s = bytes@;
    let mut tokens: VecDeque<Token> = VecDeque::new();

    // persistent scanning state
    let mut quotes: bool = false;
    let mut qchar: u8 = 0;
    let mut current: Vec<u8> = Vec::new();

    let mut i: usize = 0;
    proof {
        assert(s.subrange(0, s.len() as int) =~= s);
        assert(tokens_view(tokens@) =~= Seq::<TokenModel>::empty());
    }
    while i < bytes.len()
        invariant
            s == bytes@,
            s == encode_utf8(query@),
            i <= s.len(),
            current@.len() <= i,
            tokens_fit(tokens_view(tokens@), i as int),
            spec_tokenize(s) == spec_tokenize_from(
                s.subrange(i as int, s.len() as int),
                if quotes {
                    Some(qchar)
                } else {
                    None
                },
                current@,
                tokens_view(tokens@),
            ),
        decreases s.len() - i,
    {
        let b = bytes[i];
        proof {
            assert(s.subrange(i as int, s.len() as int).drop_first() =~= s.subrange(
                i + 1,
                s.len() as int,
            ));
            assert(s.subrange(i as int, s.len() as int)[0] == s[i as int]);
        }
        let ghost toks_old = tokens@;
        let ghost acc_old = current@;
        if quotes {
            if b == qchar {
                tokens.push_back(Token::Keyword(current));
                current = Vec::new();
                quotes = false;
                proof {
                    lemma_tokens_view_push(toks_old, Token::Keyword(current));
                    assert(tokens_view(tokens@) =~= tokens_view(toks_old).push(
                        TokenModel::Keyword(acc_old),
                    ));
                }
            } else {
                current.push(b);
            }
        } else {
            if b == 34 || b == 39 {
                current = Vec::new();
                quotes = true;
                qchar = b;
            } else if (65 <= b && b <= 90) || (97 <= b && b <= 122) {
                return Err(ParsingError::UnexpectedLetter);
            } else if b == 38 {
                tokens.push_back(Token::AND);
                proof {
                    lemma_tokens_view_push(toks_old, Token::AND);
                }
            } else if b == 124 {
                tokens.push_back(Token::OR);
                proof {
                    lemma_tokens_view_push(toks_old, Token::OR);
                }
            } else if b == 33 {
                tokens.push_back(Token::NOT);
                proof {
                    lemma_tokens_view_push(toks_old, Token::NOT);
                }
            } else if b == 40 {
                tokens.push_back(Token::LParen);
                proof {
                    lemma_tokens_view_push(toks_old, Token::LParen);
                }
            } else if b == 41 {
                tokens.push_back(Token::RParen);
                proof {
                    lemma_tokens_view_push(toks_old, Token::RParen);
                }
            } else if b == 32 || b == 9 || b == 10 || b == 13 {
                // skip whitespace
            } else {
                return Err(ParsingError::UnexpectedCharacter);
            }
        }
        i += 1;
    }
    if quotes {
        proof {
            assert(s.subrange(i as int, s.len() as int) =~= Seq::<u8>::empty());
        }
        return Err(ParsingError::UnterminatedQuote);
    }
    proof {
        assert(s.subrange(i as int, s.len() as int) =~= Seq::<u8>::empty());
    }
    Ok(tokens)
}

/// `factor := '!' factor | keyword | '(' expression ')'`, consuming from
/// the front of the queue.  A keyword is lower-cased and given its
/// failure table here, once, at parse time.
pub fn build_and_group(tokens: &mut VecDeque<Token>) -> (r: Result<Node, ParsingError>)
    requires
        tokens_fit(tokens_view(old(tokens)@), 0x7fff_ffff_ffff_ffff),
    ensures
        match r {
            Ok(n) => {
                &&& spec_factor(tokens_view(old(tokens)@)) == Ok::<_, ParsingError>(
                    (n.model(), tokens_view(final(tokens)@)),
                )
                &&& n.wf()
                &&& final(tokens)@.len() < old(tokens)@.len()
                &&& tokens_fit(tokens_view(final(tokens)@), 0x7fff_ffff_ffff_ffff)
            },
            Err(e) => spec_factor(tokens_view(old(tokens)@)) == Err::<
                (NodeModel, Seq<TokenModel>),
                ParsingError,
            >(e),
        },
    decreases tokens@.len(), 0nat,
{
    let ghost ts0 = tokens_view(tokens@);
    let ghost before0 = tokens@;
    let popped = tokens.pop_front();
    proof {
        if before0.len() > 0 {
            lemma_tokens_view_drop(before0);
        }
    }
    match popped {
        Some(t) => {
            match t {
                Token::NOT => {
                    match build_and_group(tokens) {
                        Ok(node) => Ok(Node::NOT(Box::new(node))),
                        Err(e) => Err(e),
                    }
                },
                Token::Keyword(kw) => {
                    proof {
                        assert(ts0[0] == TokenModel::Keyword(kw@));
                    }
                    let folded = fold_vec(kw.as_slice());
                    let table = kmp_table(&folded);
                    Ok(Node::Leaf(folded, table))
                },
                Token::LParen => {
                    let expr = match build_query(tokens) {
                        Ok(expr) => expr,
                        Err(e) => {
                            return Err(e);
                        },
                    };
                    let ghost before1 = tokens@;
                    let closing = tokens.pop_front();
                    proof {
                        if before1.len() > 0 {
                            lemma_tokens_view_drop(before1);
                        }
                    }
                    match closing {
                        Some(c) => {
                            if let Token::RParen = c {
                                Ok(expr)
                            } else {
                                Err(ParsingError::UnclosedGroup)
                            }
                        },
                        None => Err(ParsingError::UnclosedGroup),
                    }
                },
                _ => Err(ParsingError::UnexpectedToken),
            }
        },
        None => Err(ParsingError::UnexpectedEndOfInput),
    }
}

/// `term := factor ('&' factor)*`, folding left-associated `AND` nodes.
pub fn build_or_group(tokens: &mut VecDeque<Token>) -> (r: Result<Node, ParsingError>)
    requires
        tokens_fit(tokens_view(old(tokens)@), 0x7fff_ffff_ffff_ffff),
    ensures
        match r {
            Ok(n) => {
                &&& spec_term(tokens_view(old(tokens)@)) == Ok::<_, ParsingError>(
                    (n.model(), tokens_view(final(tokens)@)),
                )
                &&& n.wf()
                &&& final(tokens)@.len() < old(tokens)@.len()
                &&& tokens_fit(tokens_view(final(tokens)@), 0x7fff_ffff_ffff_ffff)
            },
            Err(e) => spec_term(tokens_view(old(tokens)@)) == Err::<
                (NodeModel, Seq<TokenModel>),
                ParsingError,
            >(e),
        },
    decreases tokens@.len(), 1nat,
{
    let ghost ts0 = tokens_view(tokens@);
    let mut left = match build_and_group(tokens) {
        Ok(l) => l,
        Err(e) => {
            return Err(e);
        },
    };
    loop
        invariant
            ts0 == tokens_view(old(tokens)@),
            spec_term(ts0) == spec_term_rest(left.model(), tokens_view(tokens@)),
            left.wf(),
            tokens@.len() < ts0.len(),
            tokens_fit(tokens_view(tokens@), 0x7fff_ffff_ffff_ffff),
        decreases tokens@.len(),
    {
        let ghost before = tokens@;
        let ghost cur = tokens_view(before);
        let popped = tokens.pop_front();
        proof {
            if before.len() > 0 {
                lemma_tokens_view_drop(before);
            }
        }
        match popped {
            Some(t) => {
                if let Token::AND = t {
                    match build_and_group(tokens) {
                        Ok(right) => {
                            left = Node::AND(Box::new(left), Box::new(right));
                        },
                        Err(e) => {
                            return Err(e);
                        },
                    }
                } else {
                    tokens.push_front(t);
                    proof {
                        assert(tokens@ =~= before);
                    }
                    return Ok(left);
                }
            },
            None => {
                return Ok(left);
            },
        }
    }
}

/// `expression := term ('|' term)*`, folding left-associated `OR`
/// nodes.
pub fn build_query(tokens: &mut VecDeque<Token>) -> (r: Result<Node, ParsingError>)
    requires
        tokens_fit(tokens_view(old(tokens)@), 0x7fff_ffff_ffff_ffff),
    ensures
        match r {
            Ok(n) => {
                &&& spec_expression(tokens_view(old(tokens)@)) == Ok::<_, ParsingError>(
                    (n.model(), tokens_view(final(tokens)@)),
                )
                &&& n.wf()
                &&& final(tokens)@.len() < old(tokens)@.len()
                &&& tokens_fit(tokens_view(final(tokens)@), 0x7fff_ffff_ffff_ffff)
            },
            Err(e) => spec_expression(tokens_view(old(tokens)@)) == Err::<
                (NodeModel, Seq<TokenModel>),
                ParsingError,
            >(e),
        },
    decreases tokens@.len(), 2nat,
{
    let ghost ts0 = tokens_view(tokens@);
    let mut left = match build_or_group(tokens) {
        Ok(l) => l,
        Err(e) => {
            return Err(e);
        },
    };
    loop
        invariant
            ts0 == tokens_view(old(tokens)@),
            spec_expression(ts0) == spec_expression_rest(left.model(), tokens_view(tokens@)),
            left.wf(),
            tokens@.len() < ts0.len(),
            tokens_fit(tokens_view(tokens@), 0x7fff_ffff_ffff_ffff),
        decreases tokens@.len(),
    {
        let ghost before = tokens@;
        let ghost cur = tokens_view(before);
        let popped = tokens.pop_front();
        proof {
            if before.len() > 0 {
                lemma_tokens_view_drop(before);
            }
        }
        match popped {
            Some(t) => {
                if let Token::OR = t {
                    match build_or_group(tokens) {
                        Ok(right) => {
                            left = Node::OR(Box::new(left), Box::new(right));
                        },
                        Err(e) => {
                            return Err(e);
                        },
                    }
                } else {
                    tokens.push_front(t);
                    proof {
                        assert(tokens@ =~= before);
                    }
                    return Ok(left);
                }
            },
            None => {
                return Ok(left);
            },
        }
    }
}

/// Parses a token queue into a query tree.
pub fn build_bquery(mut tokens: VecDeque<Token>) -> (r: Result<Node, ParsingError>)
    requires
        tokens_fit(tokens_view(tokens@), 0x7fff_ffff_ffff_ffff),
    ensures
        match r {
            Ok(n) => spec_parse(tokens_view(tokens@)) == Ok::<NodeModel, ParsingError>(n.model())
                && n.wf(),
            Err(e) => spec_parse(tokens_view(tokens@)) == Err::<NodeModel, ParsingError>(e),
        },
{
    build_query(&mut tokens)
}

/// Constructs a new query tree from a string: tokenize, then parse.
///
/// Returns a [`ParsingError`] if the query is malformed.  The length
/// bound lets every failure-table entry fit in an `i64`.
pub fn from(s: &str) -> (r: Result<Node, ParsingError>)
    requires
        encode_utf8(s@).len() <= 0x7fff_ffff_ffff_ffff,
    ensures
        match r {
            Ok(n) => spec_compile(encode_utf8(s@)) == Ok::<NodeModel, ParsingError>(n.model())
                && n.wf(),
            Err(e) => spec_compile(encode_utf8(s@)) == Err::<NodeModel, ParsingError>(e),
        },
{
    match tokenise_query(s.to_owned()) {
        Ok(ts) => build_bquery(ts),
        Err(e) => Err(e),
    }
}

} // verus!

