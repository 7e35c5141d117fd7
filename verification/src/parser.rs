//! The grammar: ordered-choice, backtracking recursive descent over a
//! classified token sequence. A failed alternative consumes no input (every
//! function takes the position by value and reports the new position only on
//! success), and the first alternative in declaration order that matches wins.
//!
//! Each production is pinned down by a mathematical mirror (`p_identifier`,
//! `p_expression`, … `p_parse`): a deterministic specification function over
//! the token sequence with the same alternative order, consumption and error
//! kinds. Every executable production ensures its result equals its
//! mirror's, so success, the node built, the end position and the failure
//! kind are all fixed, and equal token sequences provably parse equally.

use vstd::prelude::*;

verus! {

/// Classification of one lexical unit, as the external tokenizer emits it.
#[derive(Clone, Copy, Debug, PartialEq, Eq, Structural)]
pub enum TokenKind {
    Alpha,
    Digit,
    True,
    False,
    LeftParen,
    RightParen,
    LeftCurly,
    RightCurly,
    Quote,
    Slash,
    Comma,
    Semicolon,
    Let,
    Fn,
    Return,
    WhiteSpace,
    Plus,
    Dash,
    Equal,
}

/// One classified token: a kind tag and the raw lexeme text.
#[derive(Debug)]
pub struct Token {
    pub kind: TokenKind,
    pub lexeme: String,
}

impl Clone for Token {
    fn clone(&self) -> (r: Token)
        ensures
            r.kind == self.kind,
            r.lexeme@ == self.lexeme@,
    {
        Token { kind: self.kind, lexeme: self.lexeme.clone() }
    }
}

/// The binary operator of a `MathExpression` node.
#[derive(Clone, Copy, Debug, PartialEq, Eq, Structural)]
pub enum MathOp {
    Add,
    Sub,
    Mul,
    Div,
}

/// One node of the abstract syntax tree.
///
/// Structural invariants (established by the grammar, checked again by the
/// evaluator): a `MathExpression` or `VariableDefine` has exactly two
/// children; a `FunctionDefine` has the children `[FunctionArguments,
/// FunctionStatements]` in that order; a `FunctionCall` carries either no
/// children (a programmatic zero-argument call) or one `FunctionArguments`
/// group holding the argument expressions.
#[derive(Debug, PartialEq)]
#[allow(inconsistent_fields)]
pub enum Node {
    Program { children: Vec<Node> },
    Statement { children: Vec<Node> },
    FunctionDefine { name: String, children: Vec<Node> },
    FunctionArguments { children: Vec<Node> },
    FunctionStatements { children: Vec<Node> },
    Expression { children: Vec<Node> },
    MathExpression { op: MathOp, children: Vec<Node> },
    FunctionCall { name: String, children: Vec<Node> },
    VariableDefine { children: Vec<Node> },
    FunctionReturn { children: Vec<Node> },
    Number { value: i32 },
    Bool { value: bool },
    Identifier { value: String },
    String { value: String },
    Comment { value: String },
    Null,
}

/// The mathematical mirror of `Node`: names and text as character sequences,
/// children as `Seq`. All contracts speak of nodes through this type.
#[allow(inconsistent_fields)]
pub enum NodeM {
    Program { children: Seq<NodeM> },
    Statement { children: Seq<NodeM> },
    FunctionDefine { name: Seq<char>, children: Seq<NodeM> },
    FunctionArguments { children: Seq<NodeM> },
    FunctionStatements { children: Seq<NodeM> },
    Expression { children: Seq<NodeM> },
    MathExpression { op: MathOp, children: Seq<NodeM> },
    FunctionCall { name: Seq<char>, children: Seq<NodeM> },
    VariableDefine { children: Seq<NodeM> },
    FunctionReturn { children: Seq<NodeM> },
    Number { value: int },
    Bool { value: bool },
    Identifier { value: Seq<char> },
    String { value: Seq<char> },
    Comment { value: Seq<char> },
    Null,
}

pub open spec fn node_view(n: Node) -> NodeM
    decreases n, 1nat,
{
    match n {
        Node::Program { children } => NodeM::Program { children: node_views(children@) },
        Node::Statement { children } => NodeM::Statement { children: node_views(children@) },
        Node::FunctionDefine { name, children } => NodeM::FunctionDefine {
            name: name@,
            children: node_views(children@),
        },
        Node::FunctionArguments { children } => NodeM::FunctionArguments {
            children: node_views(children@),
        },
        Node::FunctionStatements { children } => NodeM::FunctionStatements {
            children: node_views(children@),
        },
        Node::Expression { children } => NodeM::Expression { children: node_views(children@) },
        Node::MathExpression { op, children } => NodeM::MathExpression {
            op,
            children: node_views(children@),
        },
        Node::FunctionCall { name, children } => NodeM::FunctionCall {
            name: name@,
            children: node_views(children@),
        },
        Node::VariableDefine { children } => NodeM::VariableDefine {
            children: node_views(children@),
        },
        Node::FunctionReturn { children } => NodeM::FunctionReturn {
            children: node_views(children@),
        },
        Node::Number { value } => NodeM::Number { value: value as int },
        Node::Bool { value } => NodeM::Bool { value },
        Node::Identifier { value } => NodeM::Identifier { value: value@ },
        Node::String { value } => NodeM::String { value: value@ },
        Node::Comment { value } => NodeM::Comment { value: value@ },
        Node::Null => NodeM::Null,
    }
}

pub open spec fn node_views(s: Seq<Node>) -> Seq<NodeM>
    decreases s, 0nat,
{
    if s.len() == 0 {
        Seq::empty()
    } else {
        node_views(s.drop_last()).push(node_view(s[s.len() - 1]))
    }
}

impl View for Node {
    type V = NodeM;

    open spec fn view(&self) -> NodeM {
        node_view(*self)
    }
}

pub broadcast proof fn lemma_node_views_len(s: Seq<Node>)
    ensures
        #[trigger] node_views(s).len() == s.len(),
    decreases s,
{
    if s.len() > 0 {
        lemma_node_views_len(s.drop_last());
    }
}

pub broadcast proof fn lemma_node_views_index(s: Seq<Node>, i: int)
    requires
        0 <= i < s.len(),
    ensures
        #[trigger] node_views(s)[i] == s[i]@,
    decreases s,
{
    lemma_node_views_len(s.drop_last());
    if i < s.len() - 1 {
        lemma_node_views_index(s.drop_last(), i);
    }
}

/// The structural invariants of the tree, spelled out per variant.
pub open spec fn wf_node(n: NodeM) -> bool
    decreases n, 1nat,
{
    match n {
        NodeM::Program { children } => wf_nodes(children),
        NodeM::Statement { children } => children.len() == 1 && wf_nodes(children),
        NodeM::FunctionDefine { name, children } => {
            &&& children.len() == 2
            &&& children[0] is FunctionArguments
            &&& children[1] is FunctionStatements
            &&& wf_nodes(children)
        },
        NodeM::FunctionArguments { children } => wf_nodes(children),
        NodeM::FunctionStatements { children } => children.len() >= 1 && wf_nodes(children),
        NodeM::Expression { children } => children.len() == 1 && wf_nodes(children),
        NodeM::MathExpression { op, children } => children.len() == 2 && wf_nodes(children),
        NodeM::FunctionCall { name, children } => {
            &&& (children.len() == 0 || (children.len() == 1 && children[0] is FunctionArguments))
            &&& wf_nodes(children)
        },
        NodeM::VariableDefine { children } => {
            &&& children.len() == 2
            &&& children[0] is Identifier
            &&& wf_nodes(children)
        },
        NodeM::FunctionReturn { children } => children.len() == 1 && wf_nodes(children),
        _ => true,
    }
}

pub open spec fn wf_nodes(s: Seq<NodeM>) -> bool
    decreases s, 0nat,
{
    if s.len() == 0 {
        true
    } else {
        wf_nodes(s.drop_last()) && wf_node(s[s.len() - 1])
    }
}

pub proof fn lemma_wf_nodes_push(s: Seq<NodeM>, n: NodeM)
    requires
        wf_nodes(s),
        wf_node(n),
    ensures
        wf_nodes(s.push(n)),
{
    assert(s.push(n).drop_last() =~= s);
}

/// A structured parse failure. `NoMatch` is the ordinary backtrackable
/// failure of an alternative; the other variants abort the whole parse.
#[derive(Clone, Copy, Debug, PartialEq, Eq, Structural)]
pub enum ParseError {
    /// No alternative of the attempted production matches at this position.
    NoMatch,
    /// A digit run does not fit in a signed 32-bit integer.
    NumberOutOfRange,
    /// A token's lexeme disagrees with its kind tag (a `Digit` token holding
    /// a character that is no decimal digit).
    MalformedToken,
    /// `program` matched a prefix but tokens remain unconsumed.
    TrailingTokens,
}

} // verus!

verus! {

/// The first position at or after `from` whose token is neither `Alpha` nor
/// `Digit` (or the end of the stream).
pub open spec fn alnum_end(toks: Seq<Token>, from: int) -> int
    decreases toks.len() - from,
{
    if from < 0 || from >= toks.len() {
        from
    } else if toks[from].kind == TokenKind::Alpha || toks[from].kind == TokenKind::Digit {
        alnum_end(toks, from + 1)
    } else {
        from
    }
}

/// The first position at or after `from` whose token is not `Digit`.
pub open spec fn digit_end(toks: Seq<Token>, from: int) -> int
    decreases toks.len() - from,
{
    if from < 0 || from >= toks.len() {
        from
    } else if toks[from].kind == TokenKind::Digit {
        digit_end(toks, from + 1)
    } else {
        from
    }
}

/// The first position at or after `from` whose token is not `Alpha`.
pub open spec fn alpha_end(toks: Seq<Token>, from: int) -> int
    decreases toks.len() - from,
{
    if from < 0 || from >= toks.len() {
        from
    } else if toks[from].kind == TokenKind::Alpha {
        alpha_end(toks, from + 1)
    } else {
        from
    }
}

/// The concatenated lexeme text of the tokens in `[from, to)`.
pub open spec fn lexeme_cat(toks: Seq<Token>, from: int, to: int) -> Seq<char>
    decreases to - from,
{
    if from >= to {
        Seq::empty()
    } else {
        lexeme_cat(toks, from, to - 1) + toks[to - 1].lexeme@
    }
}

pub open spec fn is_digit_char(c: char) -> bool {
    48 <= c as u32 <= 57
}

pub open spec fn all_digit_chars(s: Seq<char>) -> bool {
    forall|i: int| 0 <= i < s.len() ==> is_digit_char(#[trigger] s[i])
}

/// The base-10 value of a digit-character sequence.
pub open spec fn digits_val(s: Seq<char>) -> int
    decreases s.len(),
{
    if s.len() == 0 {
        0
    } else {
        digits_val(s.drop_last()) * 10 + (s[s.len() - 1] as u32 - 48)
    }
}

pub proof fn lemma_digits_val_nonneg(s: Seq<char>)
    requires
        all_digit_chars(s),
    ensures
        digits_val(s) >= 0,
    decreases s.len(),
{
    if s.len() > 0 {
        assert(all_digit_chars(s.drop_last()));
        lemma_digits_val_nonneg(s.drop_last());
    }
}

/// Longer digit runs have values at least as large as their prefixes.
pub proof fn lemma_digits_val_prefix_le(s: Seq<char>, k: int)
    requires
        all_digit_chars(s),
        0 <= k <= s.len(),
    ensures
        digits_val(s.take(k)) <= digits_val(s),
    decreases s.len() - k,
{
    if k < s.len() {
        lemma_digits_val_prefix_le(s, k + 1);
        assert(s.take(k + 1).drop_last() =~= s.take(k));
        assert(all_digit_chars(s.take(k)));
        lemma_digits_val_nonneg(s.take(k));
        assert(digits_val(s.take(k + 1)) == digits_val(s.take(k)) * 10 + (s[k] as u32 - 48));
        assert(digits_val(s.take(k)) * 10 >= digits_val(s.take(k))) by (nonlinear_arith)
            requires
                digits_val(s.take(k)) >= 0,
        ;
    } else {
        assert(s.take(k) =~= s);
    }
}

} // verus!

verus! {

/// True when the token at `pos` exists and has kind `kind`: the exact
/// success condition of every single-token matcher.
pub open spec fn token_at(toks: Seq<Token>, pos: int, kind: TokenKind) -> bool {
    0 <= pos < toks.len() && toks[pos].kind == kind
}

/// Matches exactly one token of the given kind and returns it with the next
/// position; consumes nothing on failure.
fn t_kind(tokens: &Vec<Token>, pos: usize, kind: TokenKind) -> (r: Result<(Token, usize), ParseError>)
    ensures
        r is Ok <==> token_at(tokens@, pos as int, kind),
        r matches Ok((t, p)) ==> ({
            &&& p == pos + 1
            &&& t.kind == kind
            &&& t.lexeme@ == tokens@[pos as int].lexeme@
        }),
        r matches Err(e) ==> e == ParseError::NoMatch,
{
    if pos < tokens.len() && tokens[pos].kind == kind {
        Ok((tokens[pos].clone(), pos + 1))
    } else {
        Err(ParseError::NoMatch)
    }
}

pub fn t_alpha(tokens: &Vec<Token>, pos: usize) -> (r: Result<(Token, usize), ParseError>)
    ensures
        r is Ok <==> token_at(tokens@, pos as int, TokenKind::Alpha),
        r matches Ok((t, p)) ==> p == pos + 1 && t.kind == TokenKind::Alpha && t.lexeme@
            == tokens@[pos as int].lexeme@,
        r matches Err(e) ==> e == ParseError::NoMatch,
{
    t_kind(tokens, pos, TokenKind::Alpha)
}

pub fn t_digit(tokens: &Vec<Token>, pos: usize) -> (r: Result<(Token, usize), ParseError>)
    ensures
        r is Ok <==> token_at(tokens@, pos as int, TokenKind::Digit),
        r matches Ok((t, p)) ==> p == pos + 1 && t.kind == TokenKind::Digit && t.lexeme@
            == tokens@[pos as int].lexeme@,
        r matches Err(e) ==> e == ParseError::NoMatch,
{
    t_kind(tokens, pos, TokenKind::Digit)
}

pub fn t_true(tokens: &Vec<Token>, pos: usize) -> (r: Result<(Token, usize), ParseError>)
    ensures
        r is Ok <==> token_at(tokens@, pos as int, TokenKind::True),
        r matches Ok((t, p)) ==> p == pos + 1 && t.kind == TokenKind::True,
        r matches Err(e) ==> e == ParseError::NoMatch,
{
    t_kind(tokens, pos, TokenKind::True)
}

pub fn t_false(tokens: &Vec<Token>, pos: usize) -> (r: Result<(Token, usize), ParseError>)
    ensures
        r is Ok <==> token_at(tokens@, pos as int, TokenKind::False),
        r matches Ok((t, p)) ==> p == pos + 1 && t.kind == TokenKind::False,
        r matches Err(e) ==> e == ParseError::NoMatch,
{
    t_kind(tokens, pos, TokenKind::False)
}

pub fn t_left_paren(tokens: &Vec<Token>, pos: usize) -> (r: Result<(Token, usize), ParseError>)
    ensures
        r is Ok <==> token_at(tokens@, pos as int, TokenKind::LeftParen),
        r matches Ok((t, p)) ==> p == pos + 1,
        r matches Err(e) ==> e == ParseError::NoMatch,
{
    t_kind(tokens, pos, TokenKind::LeftParen)
}

pub fn t_right_paren(tokens: &Vec<Token>, pos: usize) -> (r: Result<(Token, usize), ParseError>)
    ensures
        r is Ok <==> token_at(tokens@, pos as int, TokenKind::RightParen),
        r matches Ok((t, p)) ==> p == pos + 1,
        r matches Err(e) ==> e == ParseError::NoMatch,
{
    t_kind(tokens, pos, TokenKind::RightParen)
}

pub fn t_left_curly(tokens: &Vec<Token>, pos: usize) -> (r: Result<(Token, usize), ParseError>)
    ensures
        r is Ok <==> token_at(tokens@, pos as int, TokenKind::LeftCurly),
        r matches Ok((t, p)) ==> p == pos + 1,
        r matches Err(e) ==> e == ParseError::NoMatch,
{
    t_kind(tokens, pos, TokenKind::LeftCurly)
}

pub fn t_right_curly(tokens: &Vec<Token>, pos: usize) -> (r: Result<(Token, usize), ParseError>)
    ensures
        r is Ok <==> token_at(tokens@, pos as int, TokenKind::RightCurly),
        r matches Ok((t, p)) ==> p == pos + 1,
        r matches Err(e) ==> e == ParseError::NoMatch,
{
    t_kind(tokens, pos, TokenKind::RightCurly)
}

pub fn t_quote(tokens: &Vec<Token>, pos: usize) -> (r: Result<(Token, usize), ParseError>)
    ensures
        r is Ok <==> token_at(tokens@, pos as int, TokenKind::Quote),
        r matches Ok((t, p)) ==> p == pos + 1,
        r matches Err(e) ==> e == ParseError::NoMatch,
{
    t_kind(tokens, pos, TokenKind::Quote)
}

pub fn t_slash(tokens: &Vec<Token>, pos: usize) -> (r: Result<(Token, usize), ParseError>)
    ensures
        r is Ok <==> token_at(tokens@, pos as int, TokenKind::Slash),
        r matches Ok((t, p)) ==> p == pos + 1,
        r matches Err(e) ==> e == ParseError::NoMatch,
{
    t_kind(tokens, pos, TokenKind::Slash)
}

pub fn t_comma(tokens: &Vec<Token>, pos: usize) -> (r: Result<(Token, usize), ParseError>)
    ensures
        r is Ok <==> token_at(tokens@, pos as int, TokenKind::Comma),
        r matches Ok((t, p)) ==> p == pos + 1,
        r matches Err(e) ==> e == ParseError::NoMatch,
{
    t_kind(tokens, pos, TokenKind::Comma)
}

pub fn t_semicolon(tokens: &Vec<Token>, pos: usize) -> (r: Result<(Token, usize), ParseError>)
    ensures
        r is Ok <==> token_at(tokens@, pos as int, TokenKind::Semicolon),
        r matches Ok((t, p)) ==> p == pos + 1,
        r matches Err(e) ==> e == ParseError::NoMatch,
{
    t_kind(tokens, pos, TokenKind::Semicolon)
}

pub fn t_let(tokens: &Vec<Token>, pos: usize) -> (r: Result<(Token, usize), ParseError>)
    ensures
        r is Ok <==> token_at(tokens@, pos as int, TokenKind::Let),
        r matches Ok((t, p)) ==> p == pos + 1,
        r matches Err(e) ==> e == ParseError::NoMatch,
{
    t_kind(tokens, pos, TokenKind::Let)
}

pub fn t_fn(tokens: &Vec<Token>, pos: usize) -> (r: Result<(Token, usize), ParseError>)
    ensures
        r is Ok <==> token_at(tokens@, pos as int, TokenKind::Fn),
        r matches Ok((t, p)) ==> p == pos + 1,
        r matches Err(e) ==> e == ParseError::NoMatch,
{
    t_kind(tokens, pos, TokenKind::Fn)
}

pub fn t_return(tokens: &Vec<Token>, pos: usize) -> (r: Result<(Token, usize), ParseError>)
    ensures
        r is Ok <==> token_at(tokens@, pos as int, TokenKind::Return),
        r matches Ok((t, p)) ==> p == pos + 1,
        r matches Err(e) ==> e == ParseError::NoMatch,
{
    t_kind(tokens, pos, TokenKind::Return)
}

pub fn t_whitespace(tokens: &Vec<Token>, pos: usize) -> (r: Result<(Token, usize), ParseError>)
    ensures
        r is Ok <==> token_at(tokens@, pos as int, TokenKind::WhiteSpace),
        r matches Ok((t, p)) ==> p == pos + 1,
        r matches Err(e) ==> e == ParseError::NoMatch,
{
    t_kind(tokens, pos, TokenKind::WhiteSpace)
}

pub fn t_plus(tokens: &Vec<Token>, pos: usize) -> (r: Result<(Token, usize), ParseError>)
    ensures
        r is Ok <==> token_at(tokens@, pos as int, TokenKind::Plus),
        r matches Ok((t, p)) ==> p == pos + 1,
        r matches Err(e) ==> e == ParseError::NoMatch,
{
    t_kind(tokens, pos, TokenKind::Plus)
}

pub fn t_dash(tokens: &Vec<Token>, pos: usize) -> (r: Result<(Token, usize), ParseError>)
    ensures
        r is Ok <==> token_at(tokens@, pos as int, TokenKind::Dash),
        r matches Ok((t, p)) ==> p == pos + 1,
        r matches Err(e) ==> e == ParseError::NoMatch,
{
    t_kind(tokens, pos, TokenKind::Dash)
}

pub fn t_equal(tokens: &Vec<Token>, pos: usize) -> (r: Result<(Token, usize), ParseError>)
    ensures
        r is Ok <==> token_at(tokens@, pos as int, TokenKind::Equal),
        r matches Ok((t, p)) ==> p == pos + 1,
        r matches Err(e) ==> e == ParseError::NoMatch,
{
    t_kind(tokens, pos, TokenKind::Equal)
}

} // verus!

verus! {

/// Zero or more `Alpha` tokens: the maximal run starting at `pos`.
pub fn t_alpha0(tokens: &Vec<Token>, pos: usize) -> (r: (Vec<Token>, usize))
    requires
        pos <= tokens@.len(),
    ensures
        r.1 == alpha_end(tokens@, pos as int),
        pos <= r.1 <= tokens@.len(),
        r.0@.len() == r.1 - pos,
        forall|k: int| 0 <= k < r.0@.len() ==> #[trigger] r.0@[k].kind == TokenKind::Alpha
            && r.0@[k].lexeme@ == tokens@[pos + k].lexeme@,
{
    let mut out: Vec<Token> = Vec::new();
    let mut j: usize = pos;
    while j < tokens.len() && tokens[j].kind == TokenKind::Alpha
        invariant
            pos <= j <= tokens@.len(),
            alpha_end(tokens@, pos as int) == alpha_end(tokens@, j as int),
            out@.len() == j - pos,
            forall|k: int| 0 <= k < out@.len() ==> #[trigger] out@[k].kind == TokenKind::Alpha
                && out@[k].lexeme@ == tokens@[pos + k].lexeme@,
        decreases tokens@.len() - j,
    {
        out.push(tokens[j].clone());
        j = j + 1;
    }
    (out, j)
}

/// One or more `Alpha` tokens.
pub fn t_alpha1(tokens: &Vec<Token>, pos: usize) -> (r: Result<(Vec<Token>, usize), ParseError>)
    requires
        pos <= tokens@.len(),
    ensures
        r is Ok <==> token_at(tokens@, pos as int, TokenKind::Alpha),
        r matches Ok((ts, p)) ==> ({
            &&& p == alpha_end(tokens@, pos as int)
            &&& pos < p <= tokens@.len()
            &&& ts@.len() == p - pos
            &&& forall|k: int| 0 <= k < ts@.len() ==> #[trigger] ts@[k].kind == TokenKind::Alpha
                && ts@[k].lexeme@ == tokens@[pos + k].lexeme@
        }),
        r matches Err(e) ==> e == ParseError::NoMatch,
{
    broadcast use lemma_alpha_end_bounds;

    if pos < tokens.len() && tokens[pos].kind == TokenKind::Alpha {
        proof {
            lemma_alpha_end_bounds(tokens@, pos as int + 1);
            assert(alpha_end(tokens@, pos as int) == alpha_end(tokens@, pos as int + 1));
        }
        Ok(t_alpha0(tokens, pos))
    } else {
        Err(ParseError::NoMatch)
    }
}

/// Zero or more `Alpha` or `Digit` tokens: the maximal run starting at `pos`.
pub fn t_alphanumeric0(tokens: &Vec<Token>, pos: usize) -> (r: (Vec<Token>, usize))
    requires
        pos <= tokens@.len(),
    ensures
        r.1 == alnum_end(tokens@, pos as int),
        pos <= r.1 <= tokens@.len(),
        r.0@.len() == r.1 - pos,
        forall|k: int| 0 <= k < r.0@.len() ==> (#[trigger] r.0@[k].kind == TokenKind::Alpha
            || r.0@[k].kind == TokenKind::Digit) && r.0@[k].lexeme@ == tokens@[pos + k].lexeme@,
{
    let mut out: Vec<Token> = Vec::new();
    let mut j: usize = pos;
    while j < tokens.len() && (tokens[j].kind == TokenKind::Alpha || tokens[j].kind
        == TokenKind::Digit)
        invariant
            pos <= j <= tokens@.len(),
            alnum_end(tokens@, pos as int) == alnum_end(tokens@, j as int),
            out@.len() == j - pos,
            forall|k: int| 0 <= k < out@.len() ==> (#[trigger] out@[k].kind == TokenKind::Alpha
                || out@[k].kind == TokenKind::Digit) && out@[k].lexeme@ == tokens@[pos + k].lexeme@,
        decreases tokens@.len() - j,
    {
        out.push(tokens[j].clone());
        j = j + 1;
    }
    (out, j)
}

/// One or more `Alpha` or `Digit` tokens.
pub fn t_alphanumeric1(tokens: &Vec<Token>, pos: usize) -> (r: Result<
    (Vec<Token>, usize),
    ParseError,
>)
    requires
        pos <= tokens@.len(),
    ensures
        r is Ok <==> (token_at(tokens@, pos as int, TokenKind::Alpha) || token_at(
            tokens@,
            pos as int,
            TokenKind::Digit,
        )),
        r matches Ok((ts, p)) ==> ({
            &&& p == alnum_end(tokens@, pos as int)
            &&& pos < p <= tokens@.len()
            &&& ts@.len() == p - pos
        }),
        r matches Err(e) ==> e == ParseError::NoMatch,
{
    broadcast use lemma_alnum_end_bounds;

    if pos < tokens.len() && (tokens[pos].kind == TokenKind::Alpha || tokens[pos].kind
        == TokenKind::Digit) {
        proof {
            lemma_alnum_end_bounds(tokens@, pos as int + 1);
            assert(alnum_end(tokens@, pos as int) == alnum_end(tokens@, pos as int + 1));
        }
        Ok(t_alphanumeric0(tokens, pos))
    } else {
        Err(ParseError::NoMatch)
    }
}

} // verus!

verus! {

pub broadcast proof fn lemma_alpha_end_bounds(toks: Seq<Token>, from: int)
    requires
        0 <= from <= toks.len(),
    ensures
        from <= #[trigger] alpha_end(toks, from) <= toks.len(),
    decreases toks.len() - from,
{
    if from < toks.len() && toks[from].kind == TokenKind::Alpha {
        lemma_alpha_end_bounds(toks, from + 1);
    }
}

pub broadcast proof fn lemma_alnum_end_bounds(toks: Seq<Token>, from: int)
    requires
        0 <= from <= toks.len(),
    ensures
        from <= #[trigger] alnum_end(toks, from) <= toks.len(),
    decreases toks.len() - from,
{
    if from < toks.len() && (toks[from].kind == TokenKind::Alpha || toks[from].kind
        == TokenKind::Digit) {
        lemma_alnum_end_bounds(toks, from + 1);
    }
}

pub broadcast proof fn lemma_digit_end_bounds(toks: Seq<Token>, from: int)
    requires
        0 <= from <= toks.len(),
    ensures
        from <= #[trigger] digit_end(toks, from) <= toks.len(),
    decreases toks.len() - from,
{
    if from < toks.len() && toks[from].kind == TokenKind::Digit {
        lemma_digit_end_bounds(toks, from + 1);
    }
}

} // verus!

verus! {

/// identifier: one alphabetic token, then zero or more alphanumeric tokens;
/// the concatenated lexemes form the name.
pub fn identifier(tokens: &Vec<Token>, pos: usize) -> (r: Result<(Node, usize), ParseError>)
    requires
        pos <= tokens@.len(),
    ensures
        r is Ok <==> token_at(tokens@, pos as int, TokenKind::Alpha),
        r matches Ok((n, p)) ==> ({
            &&& p == alnum_end(tokens@, pos as int + 1)
            &&& pos < p <= tokens@.len()
            &&& n@ == (NodeM::Identifier { value: lexeme_cat(tokens@, pos as int, p as int) })
        }),
        parse_result_is(r, p_identifier(tokens@, pos as int)),
        r matches Err(e) ==> e == ParseError::NoMatch,
{
    broadcast use lemma_alnum_end_bounds;

    if !(pos < tokens.len() && tokens[pos].kind == TokenKind::Alpha) {
        return Err(ParseError::NoMatch);
    }
    let mut name = tokens[pos].lexeme.clone();
    let mut j: usize = pos + 1;
    proof {
        assert(lexeme_cat(tokens@, pos as int, pos as int).len() == 0);
        assert(name@ =~= lexeme_cat(tokens@, pos as int, pos as int + 1));
    }
    while j < tokens.len() && (tokens[j].kind == TokenKind::Alpha || tokens[j].kind
        == TokenKind::Digit)
        invariant
            pos + 1 <= j <= tokens@.len(),
            alnum_end(tokens@, pos as int + 1) == alnum_end(tokens@, j as int),
            name@ == lexeme_cat(tokens@, pos as int, j as int),
        decreases tokens@.len() - j,
    {
        name.append(tokens[j].lexeme.as_str());
        j = j + 1;
    }
    Ok((Node::Identifier { value: name }, j))
}

/// number: one or more digit tokens, read as a base-10 signed 32-bit value.
/// A digit run that does not fit yields `NumberOutOfRange`; a `Digit` token
/// whose lexeme holds a non-digit character yields `MalformedToken`.
#[verifier::loop_isolation(false)]
pub fn number(tokens: &Vec<Token>, pos: usize) -> (r: Result<(Node, usize), ParseError>)
    requires
        pos <= tokens@.len(),
    ensures
        ({
            let e = digit_end(tokens@, pos as int);
            let cat = lexeme_cat(tokens@, pos as int, e);
            &&& (r is Ok <==> (token_at(tokens@, pos as int, TokenKind::Digit) && all_digit_chars(
                cat,
            ) && digits_val(cat) <= i32::MAX))
            &&& (r matches Ok((n, p)) ==> ({
                &&& p == e
                &&& pos < p <= tokens@.len()
                &&& n@ == (NodeM::Number { value: digits_val(cat) })
            }))
            &&& (r matches Err(err) ==> (if !token_at(tokens@, pos as int, TokenKind::Digit) {
                err == ParseError::NoMatch
            } else if !all_digit_chars(cat) {
                err == ParseError::MalformedToken
            } else {
                err == ParseError::NumberOutOfRange
            }))
        }),
        parse_result_is(r, p_number(tokens@, pos as int)),
{
    broadcast use lemma_digit_end_bounds;

    if !(pos < tokens.len() && tokens[pos].kind == TokenKind::Digit) {
        return Err(ParseError::NoMatch);
    }
    let mut digits = tokens[pos].lexeme.clone();
    let mut j: usize = pos + 1;
    proof {
        lemma_digit_end_bounds(tokens@, pos as int + 1);
        assert(digit_end(tokens@, pos as int) == digit_end(tokens@, pos as int + 1));
        assert(lexeme_cat(tokens@, pos as int, pos as int).len() == 0);
        assert(digits@ =~= lexeme_cat(tokens@, pos as int, pos as int + 1));
    }
    while j < tokens.len() && tokens[j].kind == TokenKind::Digit
        invariant
            pos + 1 <= j <= tokens@.len(),
            digit_end(tokens@, pos as int + 1) == digit_end(tokens@, j as int),
            digits@ == lexeme_cat(tokens@, pos as int, j as int),
        decreases tokens@.len() - j,
    {
        digits.append(tokens[j].lexeme.as_str());
        j = j + 1;
    }
    let ghost cat = lexeme_cat(tokens@, pos as int, j as int);
    let ds = digits.as_str();
    let n_chars = ds.unicode_len();
    // First pass: every character must be a decimal digit.
    let mut k: usize = 0;
    while k < n_chars
        invariant
            0 <= k <= n_chars,
            n_chars == cat.len(),
            ds@ == cat,
            forall|m: int| 0 <= m < k ==> is_digit_char(#[trigger] cat[m]),
        decreases n_chars - k,
    {
        let c = ds.get_char(k);
        let u = c as u32;
        if u < 48 || u > 57 {
            return Err(ParseError::MalformedToken);
        }
        k = k + 1;
    }
    assert(all_digit_chars(cat));
    // Second pass: accumulate the value, rejecting runs beyond i32::MAX.
    let mut v: u64 = 0;
    let mut k2: usize = 0;
    proof {
        assert(cat.take(0) =~= Seq::<char>::empty());
    }
    while k2 < n_chars
        invariant
            0 <= k2 <= n_chars,
            n_chars == cat.len(),
            ds@ == cat,
            all_digit_chars(cat),
            v as int == digits_val(cat.take(k2 as int)),
            v <= i32::MAX,
        decreases n_chars - k2,
    {
        let c = ds.get_char(k2);
        let u = c as u32;
        let d: u64 = (u - 48) as u64;
        v = v * 10 + d;
        proof {
            assert(cat.take(k2 as int + 1).drop_last() =~= cat.take(k2 as int));
            assert(digits_val(cat.take(k2 as int + 1)) == digits_val(cat.take(k2 as int)) * 10 + (
            cat[k2 as int] as u32 - 48));
        }
        k2 = k2 + 1;
        if v > 0x7fff_ffff {
            proof {
                lemma_digits_val_prefix_le(cat, k2 as int);
            }
            return Err(ParseError::NumberOutOfRange);
        }
    }
    proof {
        assert(cat.take(n_chars as int) =~= cat);
    }
    Ok((Node::Number { value: v as i32 }, j))
}

/// boolean: exactly one `true` or `false` keyword token.
pub fn boolean(tokens: &Vec<Token>, pos: usize) -> (r: Result<(Node, usize), ParseError>)
    requires
        pos <= tokens@.len(),
    ensures
        r is Ok <==> (token_at(tokens@, pos as int, TokenKind::True) || token_at(
            tokens@,
            pos as int,
            TokenKind::False,
        )),
        r matches Ok((n, p)) ==> ({
            &&& p == pos + 1
            &&& n@ == (NodeM::Bool { value: tokens@[pos as int].kind == TokenKind::True })
        }),
        parse_result_is(r, p_boolean(tokens@, pos as int)),
        r matches Err(e) ==> e == ParseError::NoMatch,
{
    if pos < tokens.len() && tokens[pos].kind == TokenKind::True {
        Ok((Node::Bool { value: true }, pos + 1))
    } else if pos < tokens.len() && tokens[pos].kind == TokenKind::False {
        Ok((Node::Bool { value: false }, pos + 1))
    } else {
        Err(ParseError::NoMatch)
    }
}

/// string: a quote, zero or more alphanumeric tokens concatenated as the
/// text, and a closing quote.
pub fn string(tokens: &Vec<Token>, pos: usize) -> (r: Result<(Node, usize), ParseError>)
    requires
        pos <= tokens@.len(),
    ensures
        r is Ok <==> (token_at(tokens@, pos as int, TokenKind::Quote) && ({
            let e = alnum_end(tokens@, pos as int + 1);
            e < tokens@.len() && tokens@[e].kind == TokenKind::Quote
        })),
        r matches Ok((n, p)) ==> ({
            let e = alnum_end(tokens@, pos as int + 1);
            &&& p == e + 1
            &&& pos < p <= tokens@.len()
            &&& n@ == (NodeM::String { value: lexeme_cat(tokens@, pos as int + 1, e) })
        }),
        parse_result_is(r, p_string(tokens@, pos as int)),
        r matches Err(e) ==> e == ParseError::NoMatch,
{
    broadcast use lemma_alnum_end_bounds;

    if !(pos < tokens.len() && tokens[pos].kind == TokenKind::Quote) {
        return Err(ParseError::NoMatch);
    }
    let mut text = String::new();
    let mut j: usize = pos + 1;
    proof {
        assert(text@ =~= lexeme_cat(tokens@, pos as int + 1, pos as int + 1));
    }
    while j < tokens.len() && (tokens[j].kind == TokenKind::Alpha || tokens[j].kind
        == TokenKind::Digit)
        invariant
            pos + 1 <= j <= tokens@.len(),
            alnum_end(tokens@, pos as int + 1) == alnum_end(tokens@, j as int),
            text@ == lexeme_cat(tokens@, pos as int + 1, j as int),
        decreases tokens@.len() - j,
    {
        text.append(tokens[j].lexeme.as_str());
        j = j + 1;
    }
    if j < tokens.len() && tokens[j].kind == TokenKind::Quote {
        Ok((Node::String { value: text }, j + 1))
    } else {
        Err(ParseError::NoMatch)
    }
}

/// comment: two slashes followed by zero or more alphabetic tokens. The
/// production exists in the grammar's vocabulary but `program` never tries
/// it, so comments are never part of a parsed program.
pub fn comment(tokens: &Vec<Token>, pos: usize) -> (r: Result<(Node, usize), ParseError>)
    requires
        pos <= tokens@.len(),
    ensures
        r is Ok <==> (token_at(tokens@, pos as int, TokenKind::Slash) && token_at(
            tokens@,
            pos as int + 1,
            TokenKind::Slash,
        )),
        r matches Ok((n, p)) ==> ({
            &&& p == alpha_end(tokens@, pos as int + 2)
            &&& pos < p <= tokens@.len()
            &&& n@ == (NodeM::Comment { value: lexeme_cat(tokens@, pos as int + 2, p as int) })
        }),
        r matches Err(e) ==> e == ParseError::NoMatch,
{
    broadcast use lemma_alpha_end_bounds;

    if !(pos < tokens.len() && tokens[pos].kind == TokenKind::Slash) {
        return Err(ParseError::NoMatch);
    }
    if !(pos + 1 < tokens.len() && tokens[pos + 1].kind == TokenKind::Slash) {
        return Err(ParseError::NoMatch);
    }
    let mut text = String::new();
    let mut j: usize = pos + 2;
    proof {
        assert(text@ =~= lexeme_cat(tokens@, pos as int + 2, pos as int + 2));
    }
    while j < tokens.len() && tokens[j].kind == TokenKind::Alpha
        invariant
            pos + 2 <= j <= tokens@.len(),
            alpha_end(tokens@, pos as int + 2) == alpha_end(tokens@, j as int),
            text@ == lexeme_cat(tokens@, pos as int + 2, j as int),
        decreases tokens@.len() - j,
    {
        text.append(tokens[j].lexeme.as_str());
        j = j + 1;
    }
    Ok((Node::Comment { value: text }, j))
}

} // verus!

verus! {

pub proof fn lemma_node_views_push(s: Seq<Node>, n: Node)
    ensures
        node_views(s.push(n)) == node_views(s).push(node_view(n)),
{
    assert(s.push(n).drop_last() =~= s);
    assert(s.push(n)[s.push(n).len() - 1] == n);
}

/// Exact success condition of the `value` production: a well-formed number,
/// an identifier, or a boolean keyword starts at `pos`.
pub open spec fn value_matches(toks: Seq<Token>, pos: int) -> bool {
    if !(0 <= pos < toks.len()) {
        false
    } else if toks[pos].kind == TokenKind::Digit {
        let cat = lexeme_cat(toks, pos, digit_end(toks, pos));
        all_digit_chars(cat) && digits_val(cat) <= i32::MAX
    } else {
        toks[pos].kind == TokenKind::Alpha || toks[pos].kind == TokenKind::True || toks[pos].kind
            == TokenKind::False
    }
}

/// The node the `value` production yields at `pos`.
pub open spec fn value_node(toks: Seq<Token>, pos: int) -> NodeM {
    if toks[pos].kind == TokenKind::Digit {
        NodeM::Number { value: digits_val(lexeme_cat(toks, pos, digit_end(toks, pos))) }
    } else if toks[pos].kind == TokenKind::Alpha {
        NodeM::Identifier { value: lexeme_cat(toks, pos, alnum_end(toks, pos + 1)) }
    } else {
        NodeM::Bool { value: toks[pos].kind == TokenKind::True }
    }
}

/// The position right after the `value` production's match at `pos`.
pub open spec fn value_end(toks: Seq<Token>, pos: int) -> int {
    if toks[pos].kind == TokenKind::Digit {
        digit_end(toks, pos)
    } else if toks[pos].kind == TokenKind::Alpha {
        alnum_end(toks, pos + 1)
    } else {
        pos + 1
    }
}

/// The error `value` reports when it fails at `pos`.
pub open spec fn value_err(toks: Seq<Token>, pos: int) -> ParseError {
    if !token_at(toks, pos, TokenKind::Digit) {
        ParseError::NoMatch
    } else if !all_digit_chars(lexeme_cat(toks, pos, digit_end(toks, pos))) {
        ParseError::MalformedToken
    } else {
        ParseError::NumberOutOfRange
    }
}

/// value: number, identifier or boolean, in that priority order.
pub fn value(tokens: &Vec<Token>, pos: usize) -> (r: Result<(Node, usize), ParseError>)
    requires
        pos <= tokens@.len(),
    ensures
        r is Ok <==> value_matches(tokens@, pos as int),
        r matches Ok((n, p)) ==> ({
            &&& n@ == value_node(tokens@, pos as int)
            &&& p == value_end(tokens@, pos as int)
            &&& pos < p <= tokens@.len()
        }),
        r matches Err(err) ==> err == value_err(tokens@, pos as int),
        parse_result_is(r, p_value(tokens@, pos as int)),
{
    match number(tokens, pos) {
        Ok(x) => return Ok(x),
        Err(ParseError::NoMatch) => (),
        Err(e) => return Err(e),
    }
    match identifier(tokens, pos) {
        Ok(x) => return Ok(x),
        Err(ParseError::NoMatch) => (),
        Err(e) => return Err(e),
    }
    boolean(tokens, pos)
}

/// True when the token is the `+` or `-` operator.
pub open spec fn is_op_token(t: Token) -> bool {
    t.kind == TokenKind::Plus || t.kind == TokenKind::Dash
}

/// Exact success condition of `math_expression`: value, one binary
/// operator, value — strictly binary, no chaining.
pub open spec fn math_matches(toks: Seq<Token>, pos: int) -> bool {
    &&& value_matches(toks, pos)
    &&& ({
        let p1 = value_end(toks, pos);
        &&& 0 <= p1 < toks.len()
        &&& is_op_token(toks[p1])
        &&& value_matches(toks, p1 + 1)
    })
}

/// The node `math_expression` yields at `pos`.
pub open spec fn math_node(toks: Seq<Token>, pos: int) -> NodeM {
    let p1 = value_end(toks, pos);
    NodeM::MathExpression {
        op: if toks[p1].kind == TokenKind::Plus {
            MathOp::Add
        } else {
            MathOp::Sub
        },
        children: seq![value_node(toks, pos), value_node(toks, p1 + 1)],
    }
}

/// math_expression: value, one `+` or `-`, value. The grammar never
/// produces `Mul` or `Div`; those operators exist for programmatically
/// built trees only.
pub fn math_expression(tokens: &Vec<Token>, pos: usize) -> (r: Result<(Node, usize), ParseError>)
    requires
        pos <= tokens@.len(),
    ensures
        r is Ok <==> math_matches(tokens@, pos as int),
        r matches Ok((n, p)) ==> ({
            &&& n@ == math_node(tokens@, pos as int)
            &&& p == value_end(tokens@, value_end(tokens@, pos as int) + 1)
            &&& pos < p <= tokens@.len()
        }),
        r matches Err(e) ==> e == ({
            let p1 = value_end(tokens@, pos as int);
            if !value_matches(tokens@, pos as int) {
                value_err(tokens@, pos as int)
            } else if !(0 <= p1 < tokens@.len() && is_op_token(tokens@[p1])) {
                ParseError::NoMatch
            } else {
                value_err(tokens@, p1 + 1)
            }
        }),
        parse_result_is(r, p_math_expression(tokens@, pos as int)),
{
    let (left, p1) = match value(tokens, pos) {
        Ok(x) => x,
        Err(e) => return Err(e),
    };
    let op = if p1 < tokens.len() && tokens[p1].kind == TokenKind::Plus {
        MathOp::Add
    } else if p1 < tokens.len() && tokens[p1].kind == TokenKind::Dash {
        MathOp::Sub
    } else {
        return Err(ParseError::NoMatch);
    };
    let (right, p2) = match value(tokens, p1 + 1) {
        Ok(x) => x,
        Err(e) => return Err(e),
    };
    let children = vec![left, right];
    proof {
        let c0 = children@[0];
        let c1 = children@[1];
        assert(children@ =~= Seq::empty().push(c0).push(c1));
        lemma_node_views_push(Seq::empty().push(c0), c1);
        lemma_node_views_push(Seq::empty(), c0);
        assert(node_views(children@) =~= seq![c0@, c1@]);
    }
    Ok((Node::MathExpression { op, children }, p2))
}

} // verus!

verus! {

pub proof fn lemma_wf_nodes_singleton(n: NodeM)
    requires
        wf_node(n),
    ensures
        wf_nodes(seq![n]),
{
    assert(wf_nodes(Seq::<NodeM>::empty()));
    assert(seq![n].drop_last() =~= Seq::<NodeM>::empty());
}

pub proof fn lemma_wf_nodes_pair(a: NodeM, b: NodeM)
    requires
        wf_node(a),
        wf_node(b),
    ensures
        wf_nodes(seq![a, b]),
{
    lemma_wf_nodes_singleton(a);
    assert(seq![a, b].drop_last() =~= seq![a]);
}

/// expression: boolean, math_expression, function_call, number, string or
/// identifier — first match wins — wrapped in an `Expression` node.
pub fn expression(tokens: &Vec<Token>, pos: usize) -> (r: Result<(Node, usize), ParseError>)
    requires
        pos <= tokens@.len(),
    ensures
        r matches Ok((n, p)) ==> ({
            &&& pos < p <= tokens@.len()
            &&& n@ matches NodeM::Expression { children } && children.len() == 1
            &&& wf_node(n@)
        }),
        r matches Err(e) ==> e != ParseError::TrailingTokens,
        pos == tokens@.len() ==> r matches Err(ParseError::NoMatch),
        token_at(tokens@, pos as int, TokenKind::True) || token_at(
            tokens@,
            pos as int,
            TokenKind::False,
        ) ==> r is Ok,
        math_matches(tokens@, pos as int) ==> r is Ok,
        ({
            let e = digit_end(tokens@, pos as int);
            token_at(tokens@, pos as int, TokenKind::Digit) && value_matches(tokens@, pos as int)
                && !(e < tokens@.len() && is_op_token(tokens@[e]))
        }) ==> (r matches Ok((n, p)) && ({
            let e = digit_end(tokens@, pos as int);
            &&& n@ == (NodeM::Expression {
                children: seq![
                    NodeM::Number { value: digits_val(lexeme_cat(tokens@, pos as int, e)) },
                ],
            })
            &&& p == e
        })),
        parse_result_is(r, p_expression(tokens@, pos as int)),
    decreases tokens@.len() - pos, 3int,
{
    let inner: (Node, usize);
    match boolean(tokens, pos) {
        Ok(x) => {
            inner = x;
        },
        Err(ParseError::NoMatch) => {
            match math_expression(tokens, pos) {
                Ok(x) => {
                    proof {
                        let toks = tokens@;
                        let p0 = pos as int;
                        let p1 = value_end(toks, p0);
                        assert(wf_node(value_node(toks, p0)));
                        assert(wf_node(value_node(toks, p1 + 1)));
                        lemma_wf_nodes_pair(value_node(toks, p0), value_node(toks, p1 + 1));
                        assert(wf_node(x.0@));
                    }
                    inner = x;
                },
                Err(ParseError::NoMatch) => {
                    match function_call(tokens, pos) {
                        Ok(x) => {
                            inner = x;
                        },
                        Err(ParseError::NoMatch) => {
                            match number(tokens, pos) {
                                Ok(x) => {
                                    inner = x;
                                },
                                Err(ParseError::NoMatch) => {
                                    match string(tokens, pos) {
                                        Ok(x) => {
                                            inner = x;
                                        },
                                        Err(ParseError::NoMatch) => {
                                            match identifier(tokens, pos) {
                                                Ok(x) => {
                                                    inner = x;
                                                },
                                                Err(e) => {
                                                    return Err(e);
                                                },
                                            }
                                        },
                                        Err(e) => {
                                            return Err(e);
                                        },
                                    }
                                },
                                Err(e) => {
                                    return Err(e);
                                },
                            }
                        },
                        Err(e) => {
                            return Err(e);
                        },
                    }
                },
                Err(e) => {
                    return Err(e);
                },
            }
        },
        Err(e) => {
            return Err(e);
        },
    }
    let (node, p) = inner;
    let children = vec![node];
    proof {
        assert(children@ =~= Seq::empty().push(children@[0]));
        lemma_node_views_push(Seq::empty(), children@[0]);
        assert(node_views(children@) =~= seq![children@[0]@]);
        lemma_wf_nodes_singleton(children@[0]@);
    }
    Ok((Node::Expression { children }, p))
}

/// function_call: identifier, `(`, an optional comma-separated argument
/// list, `)`. A call with no arguments carries one empty `FunctionArguments`
/// placeholder group.
pub fn function_call(tokens: &Vec<Token>, pos: usize) -> (r: Result<(Node, usize), ParseError>)
    requires
        pos <= tokens@.len(),
    ensures
        r matches Ok((n, p)) ==> ({
            &&& pos < p <= tokens@.len()
            &&& n@ is FunctionCall
            &&& wf_node(n@)
        }),
        r matches Err(e) ==> e != ParseError::TrailingTokens,
        pos == tokens@.len() ==> r matches Err(ParseError::NoMatch),
        !token_at(tokens@, pos as int, TokenKind::Alpha) ==> r matches Err(ParseError::NoMatch),
        parse_result_is(r, p_function_call(tokens@, pos as int)),
    decreases tokens@.len() - pos, 2int,
{
    let (id_node, p1) = match identifier(tokens, pos) {
        Ok(x) => x,
        Err(e) => {
            proof {
                assert(p_function_call(tokens@, pos as int) == Err::<(NodeM, int), ParseError>(e));
            }
            return Err(e);
        },
    };
    proof {
        assert(p_identifier(tokens@, pos as int) == Ok::<(NodeM, int), ParseError>((
            id_node@,
            p1 as int,
        )));
    }
    let name = match id_node {
        Node::Identifier { value } => value,
        _ => unreached(),
    };
    let p2 = match t_left_paren(tokens, p1) {
        Ok((_t, p)) => p,
        Err(e) => {
            proof {
                assert(p_function_call(tokens@, pos as int) == Err::<(NodeM, int), ParseError>(e));
            }
            return Err(e);
        },
    };
    let (group, p3) = match arguments(tokens, p2) {
        Ok(x) => x,
        Err(ParseError::NoMatch) => (Node::FunctionArguments { children: Vec::new() }, p2),
        Err(e) => return Err(e),
    };
    proof {
        assert(wf_node(group@));
    }
    let p4 = match t_right_paren(tokens, p3) {
        Ok((_t, p)) => p,
        Err(e) => return Err(e),
    };
    let children = vec![group];
    proof {
        assert(children@ =~= Seq::empty().push(children@[0]));
        lemma_node_views_push(Seq::empty(), children@[0]);
        assert(node_views(children@) =~= seq![children@[0]@]);
        lemma_wf_nodes_singleton(children@[0]@);
    }
    Ok((Node::FunctionCall { name, children }, p4))
}

/// arguments: one expression, then zero or more `, expression` pairs,
/// gathered into one `FunctionArguments` group.
#[verifier::loop_isolation(false)]
pub fn arguments(tokens: &Vec<Token>, pos: usize) -> (r: Result<(Node, usize), ParseError>)
    requires
        pos <= tokens@.len(),
    ensures
        r matches Ok((n, p)) ==> ({
            &&& pos < p <= tokens@.len()
            &&& n@ matches NodeM::FunctionArguments { children } && children.len() >= 1
            &&& wf_node(n@)
        }),
        r matches Err(e) ==> e != ParseError::TrailingTokens,
        pos == tokens@.len() ==> r matches Err(ParseError::NoMatch),
        parse_result_is(r, p_arguments(tokens@, pos as int)),
    decreases tokens@.len() - pos, 4int,
{
    let ghost target = p_arguments(tokens@, pos as int);
    let (first, p1) = match expression(tokens, pos) {
        Ok(x) => x,
        Err(e) => return Err(e),
    };
    let mut args = vec![first];
    let mut cur = p1;
    proof {
        assert(args@ =~= Seq::empty().push(args@[0]));
        lemma_node_views_push(Seq::empty(), args@[0]);
        lemma_wf_nodes_singleton(args@[0]@);
        assert(node_views(args@) =~= seq![args@[0]@]);
        assert(target == p_more_args(tokens@, cur as int, node_views(args@)));
    }
    loop
        invariant
            pos < cur <= tokens@.len(),
            args@.len() >= 1,
            wf_nodes(node_views(args@)),
            target == p_more_args(tokens@, cur as int, node_views(args@)),
        decreases tokens@.len() - cur,
    {
        match other_arg(tokens, cur) {
            Ok((a, p)) => {
                proof {
                    lemma_node_views_push(args@, a);
                    lemma_wf_nodes_push(node_views(args@), a@);
                }
                args.push(a);
                cur = p;
            },
            Err(ParseError::NoMatch) => {
                break;
            },
            Err(e) => {
                return Err(e);
            },
        }
    }
    Ok((Node::FunctionArguments { children: args }, cur))
}

/// other_arg: a comma followed by one expression.
pub fn other_arg(tokens: &Vec<Token>, pos: usize) -> (r: Result<(Node, usize), ParseError>)
    requires
        pos <= tokens@.len(),
    ensures
        r matches Ok((n, p)) ==> ({
            &&& pos < p <= tokens@.len()
            &&& n@ is Expression
            &&& wf_node(n@)
        }),
        r matches Err(e) ==> e != ParseError::TrailingTokens,
        pos == tokens@.len() ==> r matches Err(ParseError::NoMatch),
        parse_result_is(r, p_other_arg(tokens@, pos as int)),
    decreases tokens@.len() - pos, 4int,
{
    let p1 = match t_comma(tokens, pos) {
        Ok((_t, p)) => p,
        Err(e) => return Err(e),
    };
    match expression(tokens, p1) {
        Ok(x) => Ok(x),
        Err(e) => Err(e),
    }
}

} // verus!

verus! {

/// variable_define: `let`, identifier, `=`, expression.
pub fn variable_define(tokens: &Vec<Token>, pos: usize) -> (r: Result<(Node, usize), ParseError>)
    requires
        pos <= tokens@.len(),
    ensures
        r matches Ok((n, p)) ==> ({
            &&& pos < p <= tokens@.len()
            &&& n@ is VariableDefine
            &&& wf_node(n@)
        }),
        r matches Err(e) ==> e != ParseError::TrailingTokens,
        pos == tokens@.len() ==> r matches Err(ParseError::NoMatch),
        !token_at(tokens@, pos as int, TokenKind::Let) ==> r matches Err(ParseError::NoMatch),
        parse_result_is(r, p_variable_define(tokens@, pos as int)),
    decreases tokens@.len() - pos, 4int,
{
    let p1 = match t_let(tokens, pos) {
        Ok((_t, p)) => p,
        Err(e) => return Err(e),
    };
    let (id_node, p2) = match identifier(tokens, p1) {
        Ok(x) => x,
        Err(e) => return Err(e),
    };
    let p3 = match t_equal(tokens, p2) {
        Ok((_t, p)) => p,
        Err(e) => return Err(e),
    };
    let (value_node, p4) = match expression(tokens, p3) {
        Ok(x) => x,
        Err(e) => return Err(e),
    };
    let children = vec![id_node, value_node];
    proof {
        let c0 = children@[0];
        let c1 = children@[1];
        assert(children@ =~= Seq::empty().push(c0).push(c1));
        lemma_node_views_push(Seq::empty().push(c0), c1);
        lemma_node_views_push(Seq::empty(), c0);
        assert(node_views(children@) =~= seq![c0@, c1@]);
        lemma_wf_nodes_pair(c0@, c1@);
    }
    Ok((Node::VariableDefine { children }, p4))
}

/// function_return: `return`, then a function call, an expression or an
/// identifier, in that priority order.
pub fn function_return(tokens: &Vec<Token>, pos: usize) -> (r: Result<(Node, usize), ParseError>)
    requires
        pos <= tokens@.len(),
    ensures
        r matches Ok((n, p)) ==> ({
            &&& pos < p <= tokens@.len()
            &&& n@ is FunctionReturn
            &&& wf_node(n@)
        }),
        r matches Err(e) ==> e != ParseError::TrailingTokens,
        pos == tokens@.len() ==> r matches Err(ParseError::NoMatch),
        !token_at(tokens@, pos as int, TokenKind::Return) ==> r matches Err(ParseError::NoMatch),
        parse_result_is(r, p_function_return(tokens@, pos as int)),
    decreases tokens@.len() - pos, 4int,
{
    let p1 = match t_return(tokens, pos) {
        Ok((_t, p)) => p,
        Err(e) => return Err(e),
    };
    let inner: (Node, usize);
    match function_call(tokens, p1) {
        Ok(x) => {
            inner = x;
        },
        Err(ParseError::NoMatch) => {
            match expression(tokens, p1) {
                Ok(x) => {
                    inner = x;
                },
                Err(ParseError::NoMatch) => {
                    match identifier(tokens, p1) {
                        Ok(x) => {
                            inner = x;
                        },
                        Err(e) => {
                            return Err(e);
                        },
                    }
                },
                Err(e) => {
                    return Err(e);
                },
            }
        },
        Err(e) => {
            return Err(e);
        },
    }
    let (node, p) = inner;
    let children = vec![node];
    proof {
        assert(children@ =~= Seq::empty().push(children@[0]));
        lemma_node_views_push(Seq::empty(), children@[0]);
        assert(node_views(children@) =~= seq![children@[0]@]);
        lemma_wf_nodes_singleton(children@[0]@);
    }
    Ok((Node::FunctionReturn { children }, p))
}

/// statement: a variable definition, an expression or a function return —
/// first match wins — followed by a mandatory `;`. The inner node itself is
/// the result; no `Statement` wrapper is added.
pub fn statement(tokens: &Vec<Token>, pos: usize) -> (r: Result<(Node, usize), ParseError>)
    requires
        pos <= tokens@.len(),
    ensures
        r matches Ok((n, p)) ==> ({
            &&& pos < p <= tokens@.len()
            &&& (n@ is VariableDefine || n@ is Expression || n@ is FunctionReturn)
            &&& wf_node(n@)
        }),
        r matches Err(e) ==> e != ParseError::TrailingTokens,
        pos == tokens@.len() ==> r matches Err(ParseError::NoMatch),
        parse_result_is(r, p_statement(tokens@, pos as int)),
    decreases tokens@.len() - pos, 5int,
{
    let inner: (Node, usize);
    match variable_define(tokens, pos) {
        Ok(x) => {
            inner = x;
        },
        Err(ParseError::NoMatch) => {
            match expression(tokens, pos) {
                Ok(x) => {
                    inner = x;
                },
                Err(ParseError::NoMatch) => {
                    match function_return(tokens, pos) {
                        Ok(x) => {
                            inner = x;
                        },
                        Err(e) => {
                            return Err(e);
                        },
                    }
                },
                Err(e) => {
                    return Err(e);
                },
            }
        },
        Err(e) => {
            return Err(e);
        },
    }
    let (node, p) = inner;
    match t_semicolon(tokens, p) {
        Ok((_t, p2)) => Ok((node, p2)),
        Err(e) => Err(e),
    }
}

/// function_define: `fn`, identifier, `(`, an optional parameter list whose
/// entries must all be identifiers, `)`, `{`, one or more statements, `}`.
#[verifier::loop_isolation(false)]
#[verifier::rlimit(100)]
pub fn function_define(tokens: &Vec<Token>, pos: usize) -> (r: Result<(Node, usize), ParseError>)
    requires
        pos <= tokens@.len(),
    ensures
        r matches Ok((n, p)) ==> ({
            &&& pos < p <= tokens@.len()
            &&& n@ is FunctionDefine
            &&& wf_node(n@)
        }),
        r matches Err(e) ==> e != ParseError::TrailingTokens,
        pos == tokens@.len() ==> r matches Err(ParseError::NoMatch),
        !token_at(tokens@, pos as int, TokenKind::Fn) ==> r matches Err(ParseError::NoMatch),
        parse_result_is(r, p_function_define(tokens@, pos as int)),
    decreases tokens@.len() - pos, 6int,
{
    let ghost sp = p_function_define(tokens@, pos as int);
    let p1 = match t_fn(tokens, pos) {
        Ok((_t, p)) => p,
        Err(e) => return Err(e),
    };
    let (id_node, p2) = match identifier(tokens, p1) {
        Ok(x) => x,
        Err(e) => return Err(e),
    };
    let name = match id_node {
        Node::Identifier { value } => value,
        _ => unreached(),
    };
    let p3 = match t_left_paren(tokens, p2) {
        Ok((_t, p)) => p,
        Err(e) => return Err(e),
    };
    let (group, p4) = match arguments(tokens, p3) {
        Ok(x) => x,
        Err(ParseError::NoMatch) => (Node::FunctionArguments { children: Vec::new() }, p3),
        Err(e) => return Err(e),
    };
    // Each declared parameter must be a bare identifier: unwrap the
    // `Expression` each argument entry carries, rejecting anything else.
    let exprs = match group {
        Node::FunctionArguments { children } => children,
        _ => unreached(),
    };
    let ghost exprs_m = node_views(exprs@);
    let mut params: Vec<Node> = Vec::new();
    let mut i: usize = 0;
    proof {
        assert(wf_nodes(node_views(params@)));
        assert(node_views(params@) + Seq::<NodeM>::empty() =~= node_views(params@));
    }
    while i < exprs.len()
        invariant
            0 <= i <= exprs@.len(),
            wf_nodes(node_views(params@)),
            match p_params_from(exprs_m, i as int) {
                Ok(rest) => p_params_from(exprs_m, 0) == Ok::<Seq<NodeM>, ParseError>(
                    node_views(params@) + rest,
                ),
                Err(e) => p_params_from(exprs_m, 0) == Err::<Seq<NodeM>, ParseError>(e),
            },
        decreases exprs@.len() - i,
    {
        proof {
            lemma_node_views_len(exprs@);
            lemma_node_views_index(exprs@, i as int);
            lemma_node_view_variant(exprs@[i as int]);
        }
        match &exprs[i] {
            Node::Expression { children } => {
                proof {
                    lemma_node_views_len(children@);
                    if children@.len() > 0 {
                        lemma_node_views_index(children@, 0);
                        lemma_node_view_variant(children@[0]);
                    }
                }
                if children.len() == 1 {
                    match &children[0] {
                        Node::Identifier { value } => {
                            let param = Node::Identifier { value: value.clone() };
                            proof {
                                lemma_node_views_push(params@, param);
                                lemma_wf_nodes_push(node_views(params@), param@);
                                let old_m = node_views(params@);
                                let rest_next = p_params_from(exprs_m, i as int + 1);
                                if rest_next is Ok {
                                    assert((old_m + (seq![exprs_m[i as int]->Expression_children[0]]
                                        + rest_next->Ok_0)) =~= (old_m.push(param@)
                                        + rest_next->Ok_0));
                                }
                            }
                            params.push(param);
                        },
                        _ => {
                            return Err(ParseError::NoMatch);
                        },
                    }
                } else {
                    return Err(ParseError::NoMatch);
                }
            },
            _ => {
                return Err(ParseError::NoMatch);
            },
        }
        i = i + 1;
    }
    proof {
        lemma_node_views_len(exprs@);
        assert(node_views(params@) + Seq::<NodeM>::empty() =~= node_views(params@));
        assert(p_params_from(exprs_m, 0) == Ok::<Seq<NodeM>, ParseError>(node_views(params@)));
        assert(sp == p_fn_tail(tokens@, name@, node_views(params@), p4 as int));
    }
    fn_define_tail(tokens, name, params, p4)
}

/// The tail of a function definition after its parameter list: `)`, `{`,
/// one or more statements, `}`, assembled into the definition node.
#[verifier::loop_isolation(false)]
fn fn_define_tail(tokens: &Vec<Token>, name: String, params: Vec<Node>, p4: usize) -> (r: Result<
    (Node, usize),
    ParseError,
>)
    requires
        p4 <= tokens@.len(),
        wf_nodes(node_views(params@)),
    ensures
        r matches Ok((n, p)) ==> ({
            &&& p4 < p <= tokens@.len()
            &&& n@ is FunctionDefine
            &&& wf_node(n@)
        }),
        r matches Err(e) ==> e != ParseError::TrailingTokens,
        parse_result_is(r, p_fn_tail(tokens@, name@, node_views(params@), p4 as int)),
    decreases tokens@.len() - p4, 6int,
{
    let p5 = match t_right_paren(tokens, p4) {
        Ok((_t, p)) => p,
        Err(e) => return Err(e),
    };
    let p6 = match t_left_curly(tokens, p5) {
        Ok((_t, p)) => p,
        Err(e) => return Err(e),
    };
    let (first_stmt, p7) = match statement(tokens, p6) {
        Ok(x) => x,
        Err(e) => return Err(e),
    };
    let mut stmts = vec![first_stmt];
    let mut cur = p7;
    proof {
        assert(stmts@ =~= Seq::empty().push(stmts@[0]));
        lemma_node_views_push(Seq::empty(), stmts@[0]);
        lemma_wf_nodes_singleton(stmts@[0]@);
        assert(node_views(stmts@) =~= seq![stmts@[0]@]);
    }
    loop
        invariant
            p4 < cur <= tokens@.len(),
            stmts@.len() >= 1,
            wf_nodes(node_views(stmts@)),
            p_more_stmts(tokens@, cur as int, node_views(stmts@)) == p_more_stmts(
                tokens@,
                p7 as int,
                seq![first_stmt@],
            ),
        decreases tokens@.len() - cur,
    {
        match statement(tokens, cur) {
            Ok((st, p)) => {
                proof {
                    lemma_node_views_push(stmts@, st);
                    lemma_wf_nodes_push(node_views(stmts@), st@);
                }
                stmts.push(st);
                cur = p;
            },
            Err(ParseError::NoMatch) => {
                break;
            },
            Err(e) => {
                return Err(e);
            },
        }
    }
    let p8 = match t_right_curly(tokens, cur) {
        Ok((_t, p)) => p,
        Err(e) => return Err(e),
    };
    let fn_args = Node::FunctionArguments { children: params };
    let fn_stmts = Node::FunctionStatements { children: stmts };
    let children = vec![fn_args, fn_stmts];
    proof {
        let c0 = children@[0];
        let c1 = children@[1];
        assert(children@ =~= Seq::empty().push(c0).push(c1));
        lemma_node_views_push(Seq::empty().push(c0), c1);
        lemma_node_views_push(Seq::empty(), c0);
        assert(node_views(children@) =~= seq![c0@, c1@]);
        lemma_wf_nodes_pair(c0@, c1@);
    }
    Ok((Node::FunctionDefine { name, children }, p8))
}

/// program: one or more of {function definition, expression, statement,
/// string, boolean, number}, first match wins, repeated until no
/// alternative matches. Callers must additionally check that the whole
/// stream was consumed; `parse` does so.
#[verifier::loop_isolation(false)]
pub fn program(tokens: &Vec<Token>, pos: usize) -> (r: Result<(Node, usize), ParseError>)
    requires
        pos <= tokens@.len(),
    ensures
        r matches Ok((n, p)) ==> ({
            &&& pos < p <= tokens@.len()
            &&& n@ matches NodeM::Program { children } && children.len() >= 1
            &&& wf_node(n@)
        }),
        r matches Err(e) ==> e != ParseError::TrailingTokens,
        pos == tokens@.len() ==> r matches Err(ParseError::NoMatch),
        ({
            let e = digit_end(tokens@, pos as int);
            token_at(tokens@, pos as int, TokenKind::Digit) && value_matches(tokens@, pos as int)
                && e == tokens@.len()
        }) ==> (r matches Ok((n, p)) && p == tokens@.len() && n@ == (NodeM::Program {
            children: seq![
                NodeM::Expression {
                    children: seq![
                        NodeM::Number {
                            value: digits_val(
                                lexeme_cat(tokens@, pos as int, tokens@.len() as int),
                            ),
                        },
                    ],
                },
            ],
        })),
        parse_result_is(r, p_program(tokens@, pos as int)),
    decreases tokens@.len() - pos, 7int,
{
    let ghost single = token_at(tokens@, pos as int, TokenKind::Digit) && value_matches(
        tokens@,
        pos as int,
    ) && digit_end(tokens@, pos as int) == tokens@.len();
    let ghost expr_m = NodeM::Expression {
        children: seq![
            NodeM::Number {
                value: digits_val(lexeme_cat(tokens@, pos as int, tokens@.len() as int)),
            },
        ],
    };
    let mut children: Vec<Node> = Vec::new();
    let mut cur = pos;
    proof {
        assert(wf_nodes(node_views(children@)));
        assert(node_views(children@) =~= Seq::<NodeM>::empty());
    }
    loop
        invariant
            pos <= cur <= tokens@.len(),
            children@.len() >= 1 ==> pos < cur,
            wf_nodes(node_views(children@)),
            single ==> ((children@.len() == 0 && cur == pos) || (node_views(children@)
                == seq![expr_m] && cur == tokens@.len())),
            p_program_items(tokens@, cur as int, node_views(children@)) == p_program_items(
                tokens@,
                pos as int,
                Seq::empty(),
            ),
        decreases tokens@.len() - cur,
    {
        let item: (Node, usize);
        match function_define(tokens, cur) {
            Ok(x) => {
                item = x;
            },
            Err(ParseError::NoMatch) => {
                match expression(tokens, cur) {
                    Ok(x) => {
                        item = x;
                    },
                    Err(ParseError::NoMatch) => {
                        match statement(tokens, cur) {
                            Ok(x) => {
                                item = x;
                            },
                            Err(ParseError::NoMatch) => {
                                match string(tokens, cur) {
                                    Ok(x) => {
                                        item = x;
                                    },
                                    Err(ParseError::NoMatch) => {
                                        match boolean(tokens, cur) {
                                            Ok(x) => {
                                                item = x;
                                            },
                                            Err(ParseError::NoMatch) => {
                                                match number(tokens, cur) {
                                                    Ok(x) => {
                                                        item = x;
                                                    },
                                                    Err(ParseError::NoMatch) => {
                                                        break;
                                                    },
                                                    Err(e) => {
                                                        return Err(e);
                                                    },
                                                }
                                            },
                                            Err(e) => {
                                                return Err(e);
                                            },
                                        }
                                    },
                                    Err(e) => {
                                        return Err(e);
                                    },
                                }
                            },
                            Err(e) => {
                                return Err(e);
                            },
                        }
                    },
                    Err(e) => {
                        return Err(e);
                    },
                }
            },
            Err(e) => {
                return Err(e);
            },
        }
        let (child, p) = item;
        proof {
            lemma_node_views_push(children@, child);
            lemma_wf_nodes_push(node_views(children@), child@);
        }
        children.push(child);
        cur = p;
        proof {
            if single {
                assert(node_views(children@) =~= seq![expr_m]);
            }
        }
    }
    if children.len() == 0 {
        return Err(ParseError::NoMatch);
    }
    Ok((Node::Program { children }, cur))
}

/// The top entry point: parse a whole token stream as a program. A prefix
/// match that leaves tokens unconsumed is a syntax error, never a success.
pub fn parse(tokens: &Vec<Token>) -> (r: Result<Node, ParseError>)
    ensures
        r matches Ok(n) ==> ({
            &&& n@ matches NodeM::Program { children } && children.len() >= 1
            &&& wf_node(n@)
        }),
        ({
            let e = digit_end(tokens@, 0);
            token_at(tokens@, 0, TokenKind::Digit) && value_matches(tokens@, 0) && e
                == tokens@.len()
        }) ==> (r matches Ok(n) && n@ == (NodeM::Program {
            children: seq![
                NodeM::Expression {
                    children: seq![
                        NodeM::Number {
                            value: digits_val(lexeme_cat(tokens@, 0, tokens@.len() as int)),
                        },
                    ],
                },
            ],
        })),
        match r {
            Ok(n) => p_parse(tokens@) matches Ok(m) && m == n@,
            Err(e) => p_parse(tokens@) matches Err(se) && se == e,
        },
{
    match program(tokens, 0) {
        Ok((n, p)) => {
            if p == tokens.len() {
                Ok(n)
            } else {
                Err(ParseError::TrailingTokens)
            }
        },
        Err(e) => Err(e),
    }
}

} // verus!

verus! {

/// A node's view is of the same variant as the node.
pub broadcast proof fn lemma_node_view_variant(n: Node)
    ensures
        (#[trigger] node_view(n)) is Program <==> n is Program,
        node_view(n) is Statement <==> n is Statement,
        node_view(n) is FunctionDefine <==> n is FunctionDefine,
        node_view(n) is FunctionArguments <==> n is FunctionArguments,
        node_view(n) is FunctionStatements <==> n is FunctionStatements,
        node_view(n) is Expression <==> n is Expression,
        node_view(n) is MathExpression <==> n is MathExpression,
        node_view(n) is FunctionCall <==> n is FunctionCall,
        node_view(n) is VariableDefine <==> n is VariableDefine,
        node_view(n) is FunctionReturn <==> n is FunctionReturn,
        node_view(n) is Number <==> n is Number,
        node_view(n) is Bool <==> n is Bool,
        node_view(n) is Identifier <==> n is Identifier,
        node_view(n) is String <==> n is String,
        node_view(n) is Comment <==> n is Comment,
        node_view(n) is Null <==> n is Null,
{
    match n {
        Node::Program { .. } => {},
        Node::Statement { .. } => {},
        Node::FunctionDefine { .. } => {},
        Node::FunctionArguments { .. } => {},
        Node::FunctionStatements { .. } => {},
        Node::Expression { .. } => {},
        Node::MathExpression { .. } => {},
        Node::FunctionCall { .. } => {},
        Node::VariableDefine { .. } => {},
        Node::FunctionReturn { .. } => {},
        Node::Number { .. } => {},
        Node::Bool { .. } => {},
        Node::Identifier { .. } => {},
        Node::String { .. } => {},
        Node::Comment { .. } => {},
        Node::Null => {},
    }
}

} // verus!

verus! {

// ---------------------------------------------------------------------
// The grammar as one deterministic mathematical function per production.
// Each mirrors its executable production exactly — same alternative
// order, same consumption, same error kinds — so a contract of the form
// "the result equals the mirror's result" fixes the whole behaviour:
// when success is owed, which alternative wins, the node built, the end
// position, and the error otherwise. Equal token sequences trivially
// give equal results: these are functions.
//
// A recursive call is guarded by the progress fact its measure needs
// (`decreases` on remaining tokens, then a rank ordering productions
// that start at the same position); the guard branches are never taken,
// which the equality proofs of the executable productions show.
// ---------------------------------------------------------------------

pub open spec fn p_identifier(toks: Seq<Token>, pos: int) -> Result<(NodeM, int), ParseError> {
    if token_at(toks, pos, TokenKind::Alpha) {
        Ok(
            (
                NodeM::Identifier { value: lexeme_cat(toks, pos, alnum_end(toks, pos + 1)) },
                alnum_end(toks, pos + 1),
            ),
        )
    } else {
        Err(ParseError::NoMatch)
    }
}

pub open spec fn p_number(toks: Seq<Token>, pos: int) -> Result<(NodeM, int), ParseError> {
    let e = digit_end(toks, pos);
    let cat = lexeme_cat(toks, pos, e);
    if !token_at(toks, pos, TokenKind::Digit) {
        Err(ParseError::NoMatch)
    } else if !all_digit_chars(cat) {
        Err(ParseError::MalformedToken)
    } else if digits_val(cat) > i32::MAX {
        Err(ParseError::NumberOutOfRange)
    } else {
        Ok((NodeM::Number { value: digits_val(cat) }, e))
    }
}

pub open spec fn p_boolean(toks: Seq<Token>, pos: int) -> Result<(NodeM, int), ParseError> {
    if token_at(toks, pos, TokenKind::True) || token_at(toks, pos, TokenKind::False) {
        Ok((NodeM::Bool { value: toks[pos].kind == TokenKind::True }, pos + 1))
    } else {
        Err(ParseError::NoMatch)
    }
}

pub open spec fn p_string(toks: Seq<Token>, pos: int) -> Result<(NodeM, int), ParseError> {
    let e = alnum_end(toks, pos + 1);
    if token_at(toks, pos, TokenKind::Quote) && e < toks.len() && toks[e].kind == TokenKind::Quote {
        Ok((NodeM::String { value: lexeme_cat(toks, pos + 1, e) }, e + 1))
    } else {
        Err(ParseError::NoMatch)
    }
}

pub open spec fn p_value(toks: Seq<Token>, pos: int) -> Result<(NodeM, int), ParseError> {
    if value_matches(toks, pos) {
        Ok((value_node(toks, pos), value_end(toks, pos)))
    } else {
        Err(value_err(toks, pos))
    }
}

pub open spec fn p_math_expression(toks: Seq<Token>, pos: int) -> Result<(NodeM, int), ParseError> {
    let p1 = value_end(toks, pos);
    if math_matches(toks, pos) {
        Ok((math_node(toks, pos), value_end(toks, p1 + 1)))
    } else if !value_matches(toks, pos) {
        Err(value_err(toks, pos))
    } else if !(0 <= p1 < toks.len() && is_op_token(toks[p1])) {
        Err(ParseError::NoMatch)
    } else {
        Err(value_err(toks, p1 + 1))
    }
}

/// The first alternative of `expression` in declaration order — boolean,
/// math expression, function call, number, string, identifier — that
/// matches at `pos`, its result wrapped in an `Expression` node.
pub open spec fn p_expression(toks: Seq<Token>, pos: int) -> Result<(NodeM, int), ParseError>
    decreases toks.len() - pos, 3int,
{
    let wrap = |n: NodeM, p: int| Ok::<(NodeM, int), ParseError>(
        (NodeM::Expression { children: seq![n] }, p),
    );
    match p_boolean(toks, pos) {
        Ok((n, p)) => wrap(n, p),
        Err(ParseError::NoMatch) => match p_math_expression(toks, pos) {
            Ok((n, p)) => wrap(n, p),
            Err(ParseError::NoMatch) => match p_function_call(toks, pos) {
                Ok((n, p)) => wrap(n, p),
                Err(ParseError::NoMatch) => match p_number(toks, pos) {
                    Ok((n, p)) => wrap(n, p),
                    Err(ParseError::NoMatch) => match p_string(toks, pos) {
                        Ok((n, p)) => wrap(n, p),
                        Err(ParseError::NoMatch) => match p_identifier(toks, pos) {
                            Ok((n, p)) => wrap(n, p),
                            Err(e) => Err(e),
                        },
                        Err(e) => Err(e),
                    },
                    Err(e) => Err(e),
                },
                Err(e) => Err(e),
            },
            Err(e) => Err(e),
        },
        Err(e) => Err(e),
    }
}

/// identifier, `(`, an optional argument list, `)`; always exactly one
/// `FunctionArguments` child, the empty placeholder for zero arguments.
pub open spec fn p_function_call(toks: Seq<Token>, pos: int) -> Result<(NodeM, int), ParseError>
    decreases toks.len() - pos, 2int,
{
    match p_identifier(toks, pos) {
        Err(e) => Err(e),
        Ok((idn, p1)) => match idn {
            NodeM::Identifier { value: name } => {
                if !token_at(toks, p1, TokenKind::LeftParen) {
                    Err(ParseError::NoMatch)
                } else if !(pos < p1 + 1 <= toks.len()) {
                    Err(ParseError::NoMatch)
                } else {
                    let after_args = match p_arguments(toks, p1 + 1) {
                        Ok((g, p3)) => Ok((g, p3)),
                        Err(ParseError::NoMatch) => Ok(
                            (NodeM::FunctionArguments { children: Seq::empty() }, p1 + 1),
                        ),
                        Err(e) => Err(e),
                    };
                    match after_args {
                        Err(e) => Err(e),
                        Ok((group, p3)) => if token_at(toks, p3, TokenKind::RightParen) {
                            Ok((NodeM::FunctionCall { name, children: seq![group] }, p3 + 1))
                        } else {
                            Err(ParseError::NoMatch)
                        },
                    }
                }
            },
            _ => Err(ParseError::NoMatch),
        },
    }
}

/// The `(`Comma` expression`)*` tail of an argument list, gathered onto
/// the expressions already parsed.
pub open spec fn p_more_args(toks: Seq<Token>, pos: int, acc: Seq<NodeM>) -> Result<
    (NodeM, int),
    ParseError,
>
    decreases toks.len() - pos, 5int,
{
    match p_other_arg(toks, pos) {
        Err(ParseError::NoMatch) => Ok((NodeM::FunctionArguments { children: acc }, pos)),
        Err(e) => Err(e),
        Ok((e1, p)) => if pos < p <= toks.len() {
            p_more_args(toks, p, acc.push(e1))
        } else {
            Err(ParseError::NoMatch)
        },
    }
}

/// One expression, then zero or more `, expression` pairs, in source order.
pub open spec fn p_arguments(toks: Seq<Token>, pos: int) -> Result<(NodeM, int), ParseError>
    decreases toks.len() - pos, 4int,
{
    match p_expression(toks, pos) {
        Err(e) => Err(e),
        Ok((e1, p1)) => if pos < p1 <= toks.len() {
            p_more_args(toks, p1, seq![e1])
        } else {
            Err(ParseError::NoMatch)
        },
    }
}

/// A comma followed by one expression.
pub open spec fn p_other_arg(toks: Seq<Token>, pos: int) -> Result<(NodeM, int), ParseError>
    decreases toks.len() - pos, 4int,
{
    if token_at(toks, pos, TokenKind::Comma) {
        p_expression(toks, pos + 1)
    } else {
        Err(ParseError::NoMatch)
    }
}

/// `let`, identifier, `=`, expression: the identifier first, then the
/// value expression, always exactly two children.
pub open spec fn p_variable_define(toks: Seq<Token>, pos: int) -> Result<(NodeM, int), ParseError>
    decreases toks.len() - pos, 4int,
{
    if !token_at(toks, pos, TokenKind::Let) {
        Err(ParseError::NoMatch)
    } else {
        match p_identifier(toks, pos + 1) {
            Err(e) => Err(e),
            Ok((idn, p2)) => if !token_at(toks, p2, TokenKind::Equal) {
                Err(ParseError::NoMatch)
            } else if !(pos < p2 + 1 <= toks.len()) {
                Err(ParseError::NoMatch)
            } else {
                match p_expression(toks, p2 + 1) {
                    Err(e) => Err(e),
                    Ok((v, p3)) => Ok((NodeM::VariableDefine { children: seq![idn, v] }, p3)),
                }
            },
        }
    }
}

/// `return`, then the first of function call, expression, identifier.
pub open spec fn p_function_return(toks: Seq<Token>, pos: int) -> Result<(NodeM, int), ParseError>
    decreases toks.len() - pos, 4int,
{
    if !token_at(toks, pos, TokenKind::Return) {
        Err(ParseError::NoMatch)
    } else {
        let wrap = |n: NodeM, p: int| Ok::<(NodeM, int), ParseError>(
            (NodeM::FunctionReturn { children: seq![n] }, p),
        );
        match p_function_call(toks, pos + 1) {
            Ok((n, p)) => wrap(n, p),
            Err(ParseError::NoMatch) => match p_expression(toks, pos + 1) {
                Ok((n, p)) => wrap(n, p),
                Err(ParseError::NoMatch) => match p_identifier(toks, pos + 1) {
                    Ok((n, p)) => wrap(n, p),
                    Err(e) => Err(e),
                },
                Err(e) => Err(e),
            },
            Err(e) => Err(e),
        }
    }
}

/// The first of variable definition, expression, function return, then a
/// mandatory semicolon; the inner node itself is the result, unchanged.
pub open spec fn p_statement(toks: Seq<Token>, pos: int) -> Result<(NodeM, int), ParseError>
    decreases toks.len() - pos, 6int,
{
    let inner = match p_variable_define(toks, pos) {
        Ok((n, p)) => Ok((n, p)),
        Err(ParseError::NoMatch) => match p_expression(toks, pos) {
            Ok((n, p)) => Ok((n, p)),
            Err(ParseError::NoMatch) => p_function_return(toks, pos),
            Err(e) => Err(e),
        },
        Err(e) => Err(e),
    };
    match inner {
        Err(e) => Err(e),
        Ok((n, p)) => if token_at(toks, p, TokenKind::Semicolon) {
            Ok((n, p + 1))
        } else {
            Err(ParseError::NoMatch)
        },
    }
}

/// Each declared parameter must be an expression wrapping a bare
/// identifier; the unwrapped identifiers, in order.
pub open spec fn p_params_from(exprs: Seq<NodeM>, i: int) -> Result<Seq<NodeM>, ParseError>
    decreases exprs.len() - i,
{
    if i < 0 || i >= exprs.len() {
        Ok(Seq::empty())
    } else {
        match exprs[i] {
            NodeM::Expression { children: inner } => if inner.len() == 1 && inner[0]
                is Identifier {
                match p_params_from(exprs, i + 1) {
                    Ok(rest) => Ok(seq![inner[0]] + rest),
                    Err(e) => Err(e),
                }
            } else {
                Err(ParseError::NoMatch)
            },
            _ => Err(ParseError::NoMatch),
        }
    }
}

/// The `statement*` tail of a function body, gathered onto the statements
/// already parsed.
pub open spec fn p_more_stmts(toks: Seq<Token>, pos: int, acc: Seq<NodeM>) -> Result<
    (Seq<NodeM>, int),
    ParseError,
>
    decreases toks.len() - pos, 7int,
{
    match p_statement(toks, pos) {
        Err(ParseError::NoMatch) => Ok((acc, pos)),
        Err(e) => Err(e),
        Ok((s, p)) => if pos < p <= toks.len() {
            p_more_stmts(toks, p, acc.push(s))
        } else {
            Err(ParseError::NoMatch)
        },
    }
}

/// The tail of a function definition after the parameter list: `)`, `{`,
/// one or more statements, `}`, assembled with the name and parameters.
pub open spec fn p_fn_tail(toks: Seq<Token>, name: Seq<char>, params: Seq<NodeM>, p4: int) -> Result<
    (NodeM, int),
    ParseError,
>
    decreases toks.len() - p4, 8int,
{
    if !token_at(toks, p4, TokenKind::RightParen) {
        Err(ParseError::NoMatch)
    } else if !token_at(toks, p4 + 1, TokenKind::LeftCurly) {
        Err(ParseError::NoMatch)
    } else {
        match p_statement(toks, p4 + 2) {
            Err(e) => Err(e),
            Ok((s1, p7)) => if !(p4 < p7 <= toks.len()) {
                Err(ParseError::NoMatch)
            } else {
                match p_more_stmts(toks, p7, seq![s1]) {
                    Err(e) => Err(e),
                    Ok((stmts, p8)) => if token_at(toks, p8, TokenKind::RightCurly) {
                        Ok(
                            (
                                NodeM::FunctionDefine {
                                    name,
                                    children: seq![
                                        NodeM::FunctionArguments { children: params },
                                        NodeM::FunctionStatements { children: stmts },
                                    ],
                                },
                                p8 + 1,
                            ),
                        )
                    } else {
                        Err(ParseError::NoMatch)
                    },
                }
            },
        }
    }
}

/// `fn`, identifier, `(`, an optional parameter list of bare identifiers,
/// `)`, `{`, one or more statements, `}`.
pub open spec fn p_function_define(toks: Seq<Token>, pos: int) -> Result<(NodeM, int), ParseError>
    decreases toks.len() - pos, 8int,
{
    if !token_at(toks, pos, TokenKind::Fn) {
        Err(ParseError::NoMatch)
    } else {
        match p_identifier(toks, pos + 1) {
            Err(e) => Err(e),
            Ok((idn, p2)) => match idn {
                NodeM::Identifier { value: name } => if !token_at(
                    toks,
                    p2,
                    TokenKind::LeftParen,
                ) {
                    Err(ParseError::NoMatch)
                } else if !(pos < p2 + 1 <= toks.len()) {
                    Err(ParseError::NoMatch)
                } else {
                    let after_args = match p_arguments(toks, p2 + 1) {
                        Ok((g, p4)) => Ok((g, p4)),
                        Err(ParseError::NoMatch) => Ok(
                            (NodeM::FunctionArguments { children: Seq::empty() }, p2 + 1),
                        ),
                        Err(e) => Err(e),
                    };
                    match after_args {
                        Err(e) => Err(e),
                        Ok((group, p4)) => match group {
                            NodeM::FunctionArguments { children: exprs } => match p_params_from(
                                exprs,
                                0,
                            ) {
                                Err(e) => Err(e),
                                Ok(params) => if pos < p4 {
                                    p_fn_tail(toks, name, params, p4)
                                } else {
                                    Err(ParseError::NoMatch)
                                },
                            },
                            _ => Err(ParseError::NoMatch),
                        },
                    }
                },
                _ => Err(ParseError::NoMatch),
            },
        }
    }
}

/// The `program` repetition: at each point the first of {function
/// definition, expression, statement, string, boolean, number} that
/// matches is appended, until none matches.
pub open spec fn p_program_items(toks: Seq<Token>, pos: int, acc: Seq<NodeM>) -> Result<
    (Seq<NodeM>, int),
    ParseError,
>
    decreases toks.len() - pos, 9int,
{
    let item = match p_function_define(toks, pos) {
        Ok((n, p)) => Ok(Some((n, p))),
        Err(ParseError::NoMatch) => match p_expression(toks, pos) {
            Ok((n, p)) => Ok(Some((n, p))),
            Err(ParseError::NoMatch) => match p_statement(toks, pos) {
                Ok((n, p)) => Ok(Some((n, p))),
                Err(ParseError::NoMatch) => match p_string(toks, pos) {
                    Ok((n, p)) => Ok(Some((n, p))),
                    Err(ParseError::NoMatch) => match p_boolean(toks, pos) {
                        Ok((n, p)) => Ok(Some((n, p))),
                        Err(ParseError::NoMatch) => match p_number(toks, pos) {
                            Ok((n, p)) => Ok(Some((n, p))),
                            Err(ParseError::NoMatch) => Ok(None),
                            Err(e) => Err(e),
                        },
                        Err(e) => Err(e),
                    },
                    Err(e) => Err(e),
                },
                Err(e) => Err(e),
            },
            Err(e) => Err(e),
        },
        Err(e) => Err(e),
    };
    match item {
        Err(e) => Err(e),
        Ok(None) => Ok((acc, pos)),
        Ok(Some((n, p))) => if pos < p <= toks.len() {
            p_program_items(toks, p, acc.push(n))
        } else {
            Err(ParseError::NoMatch)
        },
    }
}

/// One or more program items; fails with `NoMatch` when none matches.
pub open spec fn p_program(toks: Seq<Token>, pos: int) -> Result<(NodeM, int), ParseError>
    decreases toks.len() - pos, 10int,
{
    match p_program_items(toks, pos, Seq::empty()) {
        Err(e) => Err(e),
        Ok((cs, p)) => if cs.len() == 0 {
            Err(ParseError::NoMatch)
        } else {
            Ok((NodeM::Program { children: cs }, p))
        },
    }
}

/// The whole-stream parse: a program that consumes every token. A prefix
/// match with trailing tokens is the trailing-tokens error, never a
/// success.
pub open spec fn p_parse(toks: Seq<Token>) -> Result<NodeM, ParseError> {
    match p_program(toks, 0) {
        Err(e) => Err(e),
        Ok((n, p)) => if p == toks.len() {
            Ok(n)
        } else {
            Err(ParseError::TrailingTokens)
        },
    }
}

/// The exactness shape every production's contract states: the
/// executable result equals the mathematical production's result, node
/// compared by view.
pub open spec fn parse_result_is(r: Result<(Node, usize), ParseError>, s: Result<
    (NodeM, int),
    ParseError,
>) -> bool {
    match r {
        Ok((n, p)) => s matches Ok(sp) && sp.0 == n@ && sp.1 == p,
        Err(e) => s matches Err(se) && se == e,
    }
}

} // verus!
