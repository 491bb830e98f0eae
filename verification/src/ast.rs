//! Recursive descent parsing: consumes the token sequence through a single
//! forward cursor, one production per node kind, and builds the fixed-shape
//! syntax tree Program -> Function -> Statement -> Expression. A token whose
//! kind does not match the grammar's expectation at its position is reported
//! into the error collector and the cursor moves on regardless, so one
//! malformed token produces a cascade of secondary reports; running out of
//! tokens is a distinct, fatal condition that stops all further consumption.

use vstd::prelude::*;
use crate::lexer::{TokenInfo, TokenType, TokenView, token_views};

verus! {

/// The kind of one node of the syntax tree.
#[derive(Clone, Copy, Debug, PartialEq, Eq, Structural)]
pub enum AstNodeType {
    Program,
    Function,
    Statement,
    Expression,
}

/// One node of the syntax tree: its kind, a payload (the function name for
/// Function nodes, the literal text for Expression nodes, empty otherwise),
/// and at most one owned child. The grammar produces a degenerate chain,
/// never a wider tree.
pub struct AstNode {
    pub node_type: AstNodeType,
    pub data: String,
    pub child: Option<Box<AstNode>>,
}

impl AstNode {
    /// A fresh node of the given kind with no payload and no child.
    pub fn new(nt: AstNodeType) -> (fun: AstNode)
        ensures
            fun.node_type == nt,
            fun.child is None,
            fun.data@ == Seq::<char>::empty(),
    {
        AstNode { node_type: nt, child: None, data: String::new() }
    }

    /// A fresh node of the given kind carrying the given payload.
    pub fn new_named(nt: AstNodeType, nm: String) -> (fun: AstNode)
        ensures
            fun.node_type == nt,
            fun.child is None,
            fun.data == nm,
    {
        AstNode { node_type: nt, child: None, data: nm }
    }

    /// Hands the node ownership of its single child.
    pub fn add_child(&mut self, ch: Box<AstNode>)
        ensures
            final(self).node_type == old(self).node_type,
            final(self).data == old(self).data,
            final(self).child == Some(ch),
    {
        self.child = Some(ch);
    }
}

/// The shape invariant of the tree below a node: a Program node owns
/// exactly one Function child, a Function exactly one Statement, a
/// Statement exactly one Expression, and an Expression owns nothing.
pub open spec fn subtree_wf(n: AstNode) -> bool
    decreases n,
{
    match n.node_type {
        AstNodeType::Program => match n.child {
            Some(f) => f.node_type == AstNodeType::Function && subtree_wf(*f),
            None => false,
        },
        AstNodeType::Function => match n.child {
            Some(s) => s.node_type == AstNodeType::Statement && subtree_wf(*s),
            None => false,
        },
        AstNodeType::Statement => match n.child {
            Some(e) => e.node_type == AstNodeType::Expression && subtree_wf(*e),
            None => false,
        },
        AstNodeType::Expression => n.child is None,
    }
}

/// Decides, at run time, whether a tree is a Program satisfying the shape
/// invariant: the full Program -> Function -> Statement -> Expression
/// chain with no extra node.
pub fn program_wf(node: &AstNode) -> (b: bool)
    ensures
        b == (node.node_type == AstNodeType::Program && subtree_wf(*node)),
{
    if node.node_type != AstNodeType::Program {
        return false;
    }
    match &node.child {
        Some(f) => {
            if f.node_type != AstNodeType::Function {
                return false;
            }
            proof {
                assert(subtree_wf(*node) == subtree_wf(**f));
            }
            match &f.child {
                Some(s) => {
                    if s.node_type != AstNodeType::Statement {
                        return false;
                    }
                    proof {
                        assert(subtree_wf(**f) == subtree_wf(**s));
                    }
                    match &s.child {
                        Some(e) => {
                            if e.node_type != AstNodeType::Expression {
                                return false;
                            }
                            proof {
                                assert(subtree_wf(**s) == subtree_wf(**e));
                            }
                            match &e.child {
                                Some(_) => false,
                                None => true,
                            }
                        },
                        None => false,
                    }
                },
                None => false,
            }
        },
        None => false,
    }
}

/// The function name carried in the tree below a node.
pub open spec fn subtree_name(n: AstNode) -> Seq<char>
    decreases n,
{
    match n.node_type {
        AstNodeType::Program => match n.child {
            Some(f) => subtree_name(*f),
            None => Seq::empty(),
        },
        AstNodeType::Function => n.data@,
        _ => Seq::empty(),
    }
}

/// The literal text carried in the tree below a node.
pub open spec fn subtree_literal(n: AstNode) -> Seq<char>
    decreases n,
{
    match n.node_type {
        AstNodeType::Expression => n.data@,
        _ => match n.child {
            Some(c) => subtree_literal(*c),
            None => Seq::empty(),
        },
    }
}

/// The printable name of a token kind, as diagnostics spell it.
pub open spec fn spec_kind_name(k: TokenType) -> Seq<char> {
    match k {
        TokenType::OpenBrace => "OpenBrace"@,
        TokenType::CloseBrace => "CloseBrace"@,
        TokenType::OpenParen => "OpenParen"@,
        TokenType::CloseParen => "CloseParen"@,
        TokenType::SemiColon => "SemiColon"@,
        TokenType::KeywordInt => "KeywordInt"@,
        TokenType::KeywordRet => "KeywordRet"@,
        TokenType::Identifier => "Identifier"@,
        TokenType::Intliteral => "Intliteral"@,
    }
}

impl TokenType {
    /// The printable name of this token kind.
    pub fn name(&self) -> (r: &'static str)
        ensures
            r@ == spec_kind_name(*self),
    {
        match self {
            TokenType::OpenBrace => "OpenBrace",
            TokenType::CloseBrace => "CloseBrace",
            TokenType::OpenParen => "OpenParen",
            TokenType::CloseParen => "CloseParen",
            TokenType::SemiColon => "SemiColon",
            TokenType::KeywordInt => "KeywordInt",
            TokenType::KeywordRet => "KeywordRet",
            TokenType::Identifier => "Identifier",
            TokenType::Intliteral => "Intliteral",
        }
    }
}

/// The report given when the token sequence ends before a production is
/// complete.
pub open spec fn eof_message() -> Seq<char> {
    "unexpected end of tokens"@
}

/// The dedicated report given when the one function is not named `main`.
pub open spec fn name_error_message() -> Seq<char> {
    "main function has wrong name"@
}

/// The report given when the token at the cursor is of the wrong kind for
/// the production's expectation.
pub open spec fn mismatch_message(expected: TokenType, found: TokenType) -> Seq<char> {
    match expected {
        TokenType::KeywordInt => "Wrong token type: expected Int keyword"@,
        TokenType::Identifier => "Wrong token type: expected identifier"@,
        TokenType::OpenParen => "Wrong token type "@ + spec_kind_name(found)
            + ": expected open paren"@,
        TokenType::CloseParen => "Wrong token type: expected close paren"@,
        TokenType::OpenBrace => "Wrong token type: expected open brace"@,
        TokenType::KeywordRet => "Wrong token type: expected return keyword"@,
        TokenType::Intliteral => "Wrong token type: expected int literal"@,
        TokenType::SemiColon => "Wrong token type: expected semi-colon"@,
        TokenType::CloseBrace => "Wrong token type: expected close brace"@,
    }
}

/// The views of a sequence of report strings.
pub open spec fn msg_views(s: Seq<String>) -> Seq<Seq<char>> {
    s.map_values(|x: String| x@)
}

/// The reports of one consumption step at cursor position `p`: exhaustion
/// when no token remains, a kind mismatch when the token there is of the
/// wrong kind, nothing otherwise.
pub open spec fn step_errors(toks: Seq<TokenView>, p: int, expected: TokenType) -> Seq<Seq<char>> {
    if p >= toks.len() {
        seq![eof_message()]
    } else if toks[p].kind != expected {
        seq![mismatch_message(expected, toks[p].kind)]
    } else {
        Seq::empty()
    }
}

/// The reports of consuming the expectations `ks` from position `p` on, in
/// cursor order; exhaustion is reported once and ends the cascade.
pub open spec fn cascade_errors(toks: Seq<TokenView>, p: int, ks: Seq<TokenType>) -> Seq<Seq<char>>
    decreases ks.len(),
{
    if ks.len() == 0 {
        Seq::empty()
    } else if p >= toks.len() {
        seq![eof_message()]
    } else {
        step_errors(toks, p, ks[0]) + cascade_errors(toks, p + 1, ks.drop_first())
    }
}

/// The token kinds the Expression production consumes, in order.
pub open spec fn expression_kinds() -> Seq<TokenType> {
    seq![TokenType::Intliteral]
}

/// The token kinds the Statement production consumes, in order.
pub open spec fn statement_kinds() -> Seq<TokenType> {
    seq![TokenType::KeywordRet] + expression_kinds() + seq![TokenType::SemiColon]
}

/// The token kinds the Function production consumes, in order.
pub open spec fn function_kinds() -> Seq<TokenType> {
    seq![
        TokenType::KeywordInt,
        TokenType::Identifier,
        TokenType::OpenParen,
        TokenType::CloseParen,
        TokenType::OpenBrace,
    ] + statement_kinds() + seq![TokenType::CloseBrace]
}

/// The token kinds a whole program consumes, in order: exactly nine.
pub open spec fn program_kinds() -> Seq<TokenType> {
    function_kinds()
}

/// Builds the report string for a kind mismatch.
fn mismatch_string(expected: TokenType, found: TokenType) -> (r: String)
    ensures
        r@ == mismatch_message(expected, found),
{
    match expected {
        TokenType::KeywordInt => "Wrong token type: expected Int keyword".to_owned(),
        TokenType::Identifier => "Wrong token type: expected identifier".to_owned(),
        TokenType::OpenParen => {
            let mut s = "Wrong token type ".to_owned();
            s.append(found.name());
            s.append(": expected open paren");
            s
        },
        TokenType::CloseParen => "Wrong token type: expected close paren".to_owned(),
        TokenType::OpenBrace => "Wrong token type: expected open brace".to_owned(),
        TokenType::KeywordRet => "Wrong token type: expected return keyword".to_owned(),
        TokenType::Intliteral => "Wrong token type: expected int literal".to_owned(),
        TokenType::SemiColon => "Wrong token type: expected semi-colon".to_owned(),
        TokenType::CloseBrace => "Wrong token type: expected close brace".to_owned(),
    }
}

/// Consumes one token of the expected kind at the cursor. When the cascade
/// has already stopped, does nothing; when no token remains, reports the
/// exhaustion once and stops the cascade; otherwise it advances the cursor,
/// reports a mismatch if the kind is wrong, and hands back the token's
/// text payload.
fn expect_token(
    tokens: &Vec<TokenInfo>,
    pos: &mut usize,
    halted: &mut bool,
    errors: &mut Vec<String>,
    expected: TokenType,
) -> (r: Option<String>)
    requires
        *old(pos) <= tokens@.len(),
    ensures
        *old(halted) ==> {
            &&& *final(pos) == *old(pos)
            &&& *final(halted)
            &&& final(errors)@ == old(errors)@
            &&& r is None
        },
        !*old(halted) && *old(pos) == tokens@.len() ==> {
            &&& *final(pos) == *old(pos)
            &&& *final(halted)
            &&& msg_views(final(errors)@) == msg_views(old(errors)@) + seq![eof_message()]
            &&& r is None
        },
        !*old(halted) && *old(pos) < tokens@.len() ==> {
            &&& *final(pos) == *old(pos) + 1
            &&& !*final(halted)
            &&& msg_views(final(errors)@) == msg_views(old(errors)@) + step_errors(
                token_views(tokens@),
                *old(pos) as int,
                expected,
            )
            &&& (match r {
                Some(d) => d@ == tokens@[*old(pos) as int].data@,
                None => false,
            })
        },
{
    if *halted {
        return None;
    }
    if *pos >= tokens.len() {
        errors.push("unexpected end of tokens".to_owned());
        *halted = true;
        proof {
            assert(msg_views(errors@) =~= msg_views(old(errors)@) + seq![eof_message()]);
        }
        return None;
    }
    let t = &tokens[*pos];
    *pos = *pos + 1;
    if t.token_type != expected {
        let ghost pre = errors@;
        errors.push(mismatch_string(expected, t.token_type));
        proof {
            assert(token_views(tokens@)[*old(pos) as int].kind == t.token_type);
            assert(msg_views(errors@) =~= msg_views(pre) + step_errors(
                token_views(tokens@),
                *old(pos) as int,
                expected,
            ));
        }
    } else {
        proof {
            assert(token_views(tokens@)[*old(pos) as int].kind == t.token_type);
            assert(msg_views(errors@) =~= msg_views(errors@) + step_errors(
                token_views(tokens@),
                *old(pos) as int,
                expected,
            ));
        }
    }
    proof {
        assert(token_views(tokens@)[*old(pos) as int].text == tokens@[*old(pos) as int].data@);
    }
    Some(t.data.clone())
}

/// Splitting a cascade: the reports of two expectation lists run back to
/// back are the reports of the first, then — only when the first did not
/// exhaust the tokens — the reports of the second from where the first
/// left off.
pub proof fn lemma_cascade_concat(
    toks: Seq<TokenView>,
    p: int,
    ks1: Seq<TokenType>,
    ks2: Seq<TokenType>,
)
    requires
        0 <= p <= toks.len(),
    ensures
        cascade_errors(toks, p, ks1 + ks2) == if p + ks1.len() <= toks.len() {
            cascade_errors(toks, p, ks1) + cascade_errors(toks, p + ks1.len(), ks2)
        } else {
            cascade_errors(toks, p, ks1)
        },
    decreases ks1.len(),
{
    if ks1.len() == 0 {
        assert(ks1 + ks2 =~= ks2);
        assert(cascade_errors(toks, p, ks1) + cascade_errors(toks, p, ks2) =~= cascade_errors(
            toks,
            p,
            ks2,
        ));
    } else if p == toks.len() {
        assert((ks1 + ks2).len() > 0);
    } else {
        lemma_cascade_concat(toks, p + 1, ks1.drop_first(), ks2);
        assert((ks1 + ks2).drop_first() =~= ks1.drop_first() + ks2);
        assert((ks1 + ks2)[0] == ks1[0]);
        if p + ks1.len() <= toks.len() {
            assert(step_errors(toks, p, ks1[0]) + (cascade_errors(toks, p + 1, ks1.drop_first())
                + cascade_errors(toks, p + ks1.len(), ks2)) =~= (step_errors(toks, p, ks1[0])
                + cascade_errors(toks, p + 1, ks1.drop_first())) + cascade_errors(
                toks,
                p + ks1.len(),
                ks2,
            ));
        }
    }
}

/// A cascade of one expectation is one step's reports.
pub proof fn lemma_cascade_one(toks: Seq<TokenView>, p: int, k: TokenType)
    requires
        0 <= p <= toks.len(),
    ensures
        cascade_errors(toks, p, seq![k]) == step_errors(toks, p, k),
{
    assert(seq![k].len() == 1);
    assert(seq![k][0] == k);
    if p < toks.len() {
        assert(seq![k].drop_first() =~= Seq::<TokenType>::empty());
        assert(cascade_errors(toks, p + 1, seq![k].drop_first()) == Seq::<Seq<char>>::empty());
        assert(step_errors(toks, p, k) + Seq::<Seq<char>>::empty() =~= step_errors(toks, p, k));
    }
}

/// Extending a cascade by one expectation at its end.
pub proof fn lemma_cascade_snoc(toks: Seq<TokenView>, p: int, ks: Seq<TokenType>, k: TokenType)
    requires
        0 <= p <= toks.len(),
    ensures
        cascade_errors(toks, p, ks.push(k)) == if p + ks.len() <= toks.len() {
            cascade_errors(toks, p, ks) + step_errors(toks, p + ks.len(), k)
        } else {
            cascade_errors(toks, p, ks)
        },
{
    assert(ks.push(k) =~= ks + seq![k]);
    lemma_cascade_concat(toks, p, ks, seq![k]);
    if p + ks.len() <= toks.len() {
        lemma_cascade_one(toks, p + ks.len(), k);
    }
}

/// The token kinds each production consumes, in order.
pub open spec fn node_kinds(k: AstNodeType) -> Seq<TokenType> {
    match k {
        AstNodeType::Program => program_kinds(),
        AstNodeType::Function => function_kinds(),
        AstNodeType::Statement => statement_kinds(),
        AstNodeType::Expression => expression_kinds(),
    }
}

/// The offset, from a production's first token, of the integer literal the
/// production's subtree carries.
pub open spec fn literal_offset(k: AstNodeType) -> int {
    match k {
        AstNodeType::Program => 6,
        AstNodeType::Function => 6,
        AstNodeType::Statement => 1,
        AstNodeType::Expression => 0,
    }
}

/// The Expression production: consumes one integer literal, whose text
/// becomes the node's payload.
fn parse_expression(
    node: &mut Box<AstNode>,
    tokens: &Vec<TokenInfo>,
    pos: &mut usize,
    halted: &mut bool,
    errors: &mut Vec<String>,
)
    requires
        (**old(node)).node_type == AstNodeType::Expression,
        (**old(node)).child is None,
        (**old(node)).data@ == Seq::<char>::empty(),
        *old(pos) <= tokens@.len(),
    ensures
        (**final(node)).node_type == AstNodeType::Expression,
        subtree_wf(**final(node)),
        *final(pos) <= tokens@.len(),
        *old(halted) ==> {
            &&& *final(pos) == *old(pos)
            &&& *final(halted)
            &&& final(errors)@ == old(errors)@
            &&& subtree_literal(**final(node)) == Seq::<char>::empty()
        },
        !*old(halted) ==> {
            let tv = token_views(tokens@);
            let n = tv.len() as int;
            let p = *old(pos) as int;
            &&& *final(pos) == (if p + 1 <= n { p + 1 } else { n })
            &&& *final(halted) == (p + 1 > n)
            &&& msg_views(final(errors)@) == msg_views(old(errors)@) + cascade_errors(
                tv,
                p,
                expression_kinds(),
            )
            &&& subtree_literal(**final(node)) == (if p < n {
                tv[p].text
            } else {
                Seq::<char>::empty()
            })
        },
{
    let ghost tv = token_views(tokens@);
    let ghost p = *old(pos) as int;
    let d = expect_token(tokens, pos, halted, errors, TokenType::Intliteral);
    proof {
        lemma_cascade_one(tv, p, TokenType::Intliteral);
    }
    match d {
        Some(text) => {
            node.data = text;
        },
        None => {},
    }
}

/// The Statement production: `return <expression> ;`, the expression's
/// node becoming the statement's single child.
fn parse_statement(
    node: &mut Box<AstNode>,
    tokens: &Vec<TokenInfo>,
    pos: &mut usize,
    halted: &mut bool,
    errors: &mut Vec<String>,
)
    requires
        (**old(node)).node_type == AstNodeType::Statement,
        (**old(node)).child is None,
        (**old(node)).data@ == Seq::<char>::empty(),
        *old(pos) <= tokens@.len(),
    ensures
        (**final(node)).node_type == AstNodeType::Statement,
        subtree_wf(**final(node)),
        *final(pos) <= tokens@.len(),
        *old(halted) ==> {
            &&& *final(pos) == *old(pos)
            &&& *final(halted)
            &&& final(errors)@ == old(errors)@
            &&& subtree_literal(**final(node)) == Seq::<char>::empty()
        },
        !*old(halted) ==> {
            let tv = token_views(tokens@);
            let n = tv.len() as int;
            let p = *old(pos) as int;
            &&& *final(pos) == (if p + 3 <= n { p + 3 } else { n })
            &&& *final(halted) == (p + 3 > n)
            &&& msg_views(final(errors)@) == msg_views(old(errors)@) + cascade_errors(
                tv,
                p,
                statement_kinds(),
            )
            &&& subtree_literal(**final(node)) == (if p + 1 < n {
                tv[p + 1].text
            } else {
                Seq::<char>::empty()
            })
        },
{
    let ghost tv = token_views(tokens@);
    let ghost n = tv.len() as int;
    let ghost p = *old(pos) as int;
    let ghost base = msg_views(errors@);
    expect_token(tokens, pos, halted, errors, TokenType::KeywordRet);
    proof {
        lemma_cascade_one(tv, p, TokenType::KeywordRet);
        if !*old(halted) {
            assert(msg_views(errors@) =~= base + cascade_errors(
                tv,
                p,
                seq![TokenType::KeywordRet],
            ));
        }
    }
    let mut boxed_node = Box::new(AstNode::new(AstNodeType::Expression));
    parse_expression(&mut boxed_node, tokens, pos, halted, errors);
    proof {
        lemma_cascade_concat(tv, p, seq![TokenType::KeywordRet], expression_kinds());
        if !*old(halted) {
            assert(msg_views(errors@) =~= base + cascade_errors(
                tv,
                p,
                seq![TokenType::KeywordRet] + expression_kinds(),
            ));
        }
    }
    node.add_child(boxed_node);
    expect_token(tokens, pos, halted, errors, TokenType::SemiColon);
    proof {
        lemma_cascade_concat(
            tv,
            p,
            seq![TokenType::KeywordRet] + expression_kinds(),
            seq![TokenType::SemiColon],
        );
        lemma_cascade_one(tv, if p + 2 <= n { p + 2 } else { n }, TokenType::SemiColon);
        assert(statement_kinds() =~= (seq![TokenType::KeywordRet] + expression_kinds()) + seq![
            TokenType::SemiColon,
        ]);
        if !*old(halted) {
            assert(msg_views(errors@) =~= base + cascade_errors(tv, p, statement_kinds()));
        }
    }
}

/// The Function production: `int <identifier> ( ) { <statement> }`, the
/// identifier's text becoming the node's payload and the statement's node
/// its single child.
#[verifier::rlimit(100)]
fn parse_function(
    node: &mut Box<AstNode>,
    tokens: &Vec<TokenInfo>,
    pos: &mut usize,
    halted: &mut bool,
    errors: &mut Vec<String>,
)
    requires
        (**old(node)).node_type == AstNodeType::Function,
        (**old(node)).child is None,
        (**old(node)).data@ == Seq::<char>::empty(),
        *old(pos) <= tokens@.len(),
    ensures
        (**final(node)).node_type == AstNodeType::Function,
        subtree_wf(**final(node)),
        *final(pos) <= tokens@.len(),
        *old(halted) ==> {
            &&& *final(pos) == *old(pos)
            &&& *final(halted)
            &&& final(errors)@ == old(errors)@
            &&& subtree_name(**final(node)) == Seq::<char>::empty()
            &&& subtree_literal(**final(node)) == Seq::<char>::empty()
        },
        !*old(halted) ==> {
            let tv = token_views(tokens@);
            let n = tv.len() as int;
            let p = *old(pos) as int;
            &&& *final(pos) == (if p + 9 <= n { p + 9 } else { n })
            &&& *final(halted) == (p + 9 > n)
            &&& msg_views(final(errors)@) == msg_views(old(errors)@) + cascade_errors(
                tv,
                p,
                function_kinds(),
            )
            &&& subtree_name(**final(node)) == (if p + 1 < n {
                tv[p + 1].text
            } else {
                Seq::<char>::empty()
            })
            &&& subtree_literal(**final(node)) == (if p + 6 < n {
                tv[p + 6].text
            } else {
                Seq::<char>::empty()
            })
        },
{
    let ghost tv = token_views(tokens@);
    let ghost n = tv.len() as int;
    let ghost p = *old(pos) as int;
    let ghost base = msg_views(errors@);
    let ghost k1 = seq![TokenType::KeywordInt];
    let ghost k2 = k1.push(TokenType::Identifier);
    let ghost k3 = k2.push(TokenType::OpenParen);
    let ghost k4 = k3.push(TokenType::CloseParen);
    let ghost lead = k4.push(TokenType::OpenBrace);
    expect_token(tokens, pos, halted, errors, TokenType::KeywordInt);
    proof {
        lemma_cascade_one(tv, p, TokenType::KeywordInt);
        if !*old(halted) {
            assert(msg_views(errors@) =~= base + cascade_errors(tv, p, k1));
        }
    }
    let named = expect_token(tokens, pos, halted, errors, TokenType::Identifier);
    proof {
        lemma_cascade_snoc(tv, p, k1, TokenType::Identifier);
        if !*old(halted) {
            assert(msg_views(errors@) =~= base + cascade_errors(tv, p, k2));
        }
    }
    match named {
        Some(nm) => {
            node.data = nm;
        },
        None => {},
    }
    expect_token(tokens, pos, halted, errors, TokenType::OpenParen);
    proof {
        lemma_cascade_snoc(tv, p, k2, TokenType::OpenParen);
        if !*old(halted) {
            assert(msg_views(errors@) =~= base + cascade_errors(tv, p, k3));
        }
    }
    expect_token(tokens, pos, halted, errors, TokenType::CloseParen);
    proof {
        lemma_cascade_snoc(tv, p, k3, TokenType::CloseParen);
        if !*old(halted) {
            assert(msg_views(errors@) =~= base + cascade_errors(tv, p, k4));
        }
    }
    expect_token(tokens, pos, halted, errors, TokenType::OpenBrace);
    proof {
        lemma_cascade_snoc(tv, p, k4, TokenType::OpenBrace);
        if !*old(halted) {
            assert(msg_views(errors@) =~= base + cascade_errors(tv, p, lead));
        }
    }
    let mut boxed_node = Box::new(AstNode::new(AstNodeType::Statement));
    parse_statement(&mut boxed_node, tokens, pos, halted, errors);
    proof {
        lemma_cascade_concat(tv, p, lead, statement_kinds());
        if !*old(halted) {
            assert(msg_views(errors@) =~= base + cascade_errors(tv, p, lead + statement_kinds()));
        }
    }
    expect_token(tokens, pos, halted, errors, TokenType::CloseBrace);
    proof {
        lemma_cascade_concat(tv, p, lead + statement_kinds(), seq![TokenType::CloseBrace]);
        lemma_cascade_one(tv, if p + 8 <= n { p + 8 } else { n }, TokenType::CloseBrace);
        assert(function_kinds() =~= (lead + statement_kinds()) + seq![TokenType::CloseBrace]);
        if !*old(halted) {
            assert(msg_views(errors@) =~= base + cascade_errors(tv, p, function_kinds()));
        }
    }
    node.add_child(boxed_node);
}

/// The Program production: one function, which must be named `main`; the
/// naming check runs only when all nine tokens were consumed, and its
/// report is distinct from every kind-mismatch report.
fn parse_program(
    node: &mut Box<AstNode>,
    tokens: &Vec<TokenInfo>,
    pos: &mut usize,
    halted: &mut bool,
    errors: &mut Vec<String>,
)
    requires
        (**old(node)).node_type == AstNodeType::Program,
        (**old(node)).child is None,
        (**old(node)).data@ == Seq::<char>::empty(),
        *old(pos) <= tokens@.len(),
    ensures
        (**final(node)).node_type == AstNodeType::Program,
        subtree_wf(**final(node)),
        *final(pos) <= tokens@.len(),
        *old(halted) ==> {
            &&& *final(pos) == *old(pos)
            &&& *final(halted)
            &&& final(errors)@ == old(errors)@
            &&& subtree_name(**final(node)) == Seq::<char>::empty()
            &&& subtree_literal(**final(node)) == Seq::<char>::empty()
        },
        !*old(halted) ==> {
            let tv = token_views(tokens@);
            let n = tv.len() as int;
            let p = *old(pos) as int;
            &&& *final(pos) == (if p + 9 <= n { p + 9 } else { n })
            &&& *final(halted) == (p + 9 > n)
            &&& msg_views(final(errors)@) == msg_views(old(errors)@) + cascade_errors(
                tv,
                p,
                program_kinds(),
            ) + (if p + 9 <= n && tv[p + 1].text != "main"@ {
                seq![name_error_message()]
            } else {
                Seq::<Seq<char>>::empty()
            })
            &&& subtree_name(**final(node)) == (if p + 1 < n {
                tv[p + 1].text
            } else {
                Seq::<char>::empty()
            })
            &&& subtree_literal(**final(node)) == (if p + 6 < n {
                tv[p + 6].text
            } else {
                Seq::<char>::empty()
            })
        },
{
    let ghost tv = token_views(tokens@);
    let ghost p = *old(pos) as int;
    let mut boxed_node = Box::new(AstNode::new(AstNodeType::Function));
    parse_function(&mut boxed_node, tokens, pos, halted, errors);
    if !*halted {
        if !crate::lexer::str_eq(boxed_node.data.as_str(), "main") {
            errors.push("main function has wrong name".to_owned());
            proof {
                assert(msg_views(errors@) =~= msg_views(old(errors)@) + cascade_errors(
                    tv,
                    p,
                    program_kinds(),
                ) + seq![name_error_message()]);
            }
        } else {
            proof {
                assert(msg_views(errors@) =~= msg_views(old(errors)@) + cascade_errors(
                    tv,
                    p,
                    program_kinds(),
                ) + Seq::<Seq<char>>::empty());
            }
        }
    } else {
        proof {
            if !*old(halted) {
                assert(msg_views(errors@) =~= msg_views(old(errors)@) + cascade_errors(
                    tv,
                    p,
                    program_kinds(),
                ) + Seq::<Seq<char>>::empty());
            }
        }
    }
    node.add_child(boxed_node);
}

/// One production of the recursive descent: the node's kind picks the
/// production, exactly as the grammar has one rule per node kind. The tree
/// below the node is always completed to the full grammar chain, with the
/// name and literal payloads taken from the token positions the grammar
/// assigns them whenever those tokens exist.
fn parse_ast(
    node: &mut Box<AstNode>,
    tokens: &Vec<TokenInfo>,
    pos: &mut usize,
    halted: &mut bool,
    errors: &mut Vec<String>,
)
    requires
        (**old(node)).child is None,
        (**old(node)).data@ == Seq::<char>::empty(),
        *old(pos) <= tokens@.len(),
    ensures
        (**final(node)).node_type == (**old(node)).node_type,
        subtree_wf(**final(node)),
        *final(pos) <= tokens@.len(),
        *old(halted) ==> {
            &&& *final(pos) == *old(pos)
            &&& *final(halted)
            &&& final(errors)@ == old(errors)@
        },
        !*old(halted) ==> {
            let tv = token_views(tokens@);
            let n = tv.len() as int;
            let p = *old(pos) as int;
            let ks = node_kinds((**old(node)).node_type);
            &&& *final(pos) == (if p + ks.len() <= n {
                p + ks.len()
            } else {
                n
            })
            &&& *final(halted) == (p + ks.len() > n)
            &&& msg_views(final(errors)@) == msg_views(old(errors)@) + cascade_errors(tv, p, ks)
                + (if (**old(node)).node_type == AstNodeType::Program && p + 9 <= n && tv[p
                + 1].text != "main"@ {
                seq![name_error_message()]
            } else {
                Seq::<Seq<char>>::empty()
            })
            &&& ((**old(node)).node_type == AstNodeType::Program ==> subtree_name(
                **final(node),
            ) == (if p + 1 < n {
                tv[p + 1].text
            } else {
                Seq::<char>::empty()
            }))
            &&& subtree_literal(**final(node)) == (if p + literal_offset((**old(node)).node_type)
                < n {
                tv[p + literal_offset((**old(node)).node_type)].text
            } else {
                Seq::<char>::empty()
            })
        },
{
    match node.node_type {
        AstNodeType::Program => parse_program(node, tokens, pos, halted, errors),
        AstNodeType::Function => parse_function(node, tokens, pos, halted, errors),
        AstNodeType::Statement => parse_statement(node, tokens, pos, halted, errors),
        AstNodeType::Expression => parse_expression(node, tokens, pos, halted, errors),
    }
}

/// Parses a whole token sequence into the syntax tree, reporting every
/// grammar violation, in cursor order, into the error collector. The tree
/// always comes back in the full Program -> Function -> Statement ->
/// Expression shape; its name and literal payloads are the texts of the
/// second and seventh token whenever those tokens exist. The appended
/// reports are exactly `parse_error_seq` of the tokens: empty exactly when
/// the input conforms to the grammar and names the function `main`.
pub fn parse(tokens: &Vec<TokenInfo>, errors: &mut Vec<String>) -> (root: Box<AstNode>)
    ensures
        (*root).node_type == AstNodeType::Program,
        subtree_wf(*root),
        msg_views(final(errors)@) == msg_views(old(errors)@) + parse_error_seq(
            token_views(tokens@),
        ),
        subtree_name(*root) == (if 1 < token_views(tokens@).len() {
            token_views(tokens@)[1].text
        } else {
            Seq::<char>::empty()
        }),
        subtree_literal(*root) == (if 6 < token_views(tokens@).len() {
            token_views(tokens@)[6].text
        } else {
            Seq::<char>::empty()
        }),
{
    let root = AstNode::new(AstNodeType::Program);
    let mut boxed_root = Box::new(root);
    let mut pos: usize = 0;
    let mut halted: bool = false;
    parse_ast(&mut boxed_root, tokens, &mut pos, &mut halted, errors);
    proof {
        assert(msg_views(errors@) =~= msg_views(old(errors)@) + parse_error_seq(
            token_views(tokens@),
        ));
    }
    boxed_root
}

/// All the reports parsing a token sequence produces, in order: the
/// cascade of the nine grammar expectations — cut short, with one
/// exhaustion report, when fewer than nine tokens exist — followed by the
/// dedicated naming report when all nine tokens were consumed and the
/// function's name is not `main`.
pub open spec fn parse_error_seq(toks: Seq<TokenView>) -> Seq<Seq<char>> {
    cascade_errors(toks, 0, program_kinds()) + (if toks.len() >= 9 && toks[1].text != "main"@ {
        seq![name_error_message()]
    } else {
        Seq::<Seq<char>>::empty()
    })
}

/// A token sequence that conforms to the grammar: exactly nine tokens of
/// the nine expected kinds, with the function named `main`.
pub open spec fn tokens_conform(toks: Seq<TokenView>) -> bool {
    &&& toks.len() == 9
    &&& forall|i: int| 0 <= i < 9 ==> (#[trigger] toks[i]).kind == program_kinds()[i]
    &&& toks[1].text == "main"@
}

/// A cascade over expectations that all match produces no report.
pub proof fn lemma_cascade_all_match(toks: Seq<TokenView>, p: int, ks: Seq<TokenType>)
    requires
        0 <= p,
        p + ks.len() <= toks.len(),
        forall|i: int| 0 <= i < ks.len() ==> toks[p + i].kind == (#[trigger] ks[i]),
    ensures
        cascade_errors(toks, p, ks) == Seq::<Seq<char>>::empty(),
    decreases ks.len(),
{
    if ks.len() > 0 {
        assert(toks[p].kind == ks[0]);
        assert forall|i: int| 0 <= i < ks.drop_first().len() implies toks[p + 1 + i].kind == (
        #[trigger] ks.drop_first()[i]) by {
            assert(ks.drop_first()[i] == ks[i + 1]);
        }
        lemma_cascade_all_match(toks, p + 1, ks.drop_first());
        assert(cascade_errors(toks, p, ks) =~= Seq::<Seq<char>>::empty());
    }
}

/// Law of the front end: on any input that conforms to the grammar,
/// parsing reports no error at all — so the tree handed back satisfies the
/// shape invariant and carries the input's name and literal, as `parse`'s
/// own contract states for every input.
pub proof fn lemma_parse_conforming(toks: Seq<TokenView>)
    requires
        tokens_conform(toks),
    ensures
        parse_error_seq(toks) == Seq::<Seq<char>>::empty(),
{
    lemma_cascade_all_match(toks, 0, program_kinds());
    assert(parse_error_seq(toks) =~= Seq::<Seq<char>>::empty());
}

/// Law of the naming check: when every token kind matches the grammar but
/// the function bears any name other than `main`, the one report produced
/// is the dedicated naming report — never a kind-mismatch report.
pub proof fn lemma_wrong_name_dedicated_error(toks: Seq<TokenView>)
    requires
        toks.len() == 9,
        forall|i: int| 0 <= i < 9 ==> (#[trigger] toks[i]).kind == program_kinds()[i],
        toks[1].text != "main"@,
    ensures
        parse_error_seq(toks) == seq![name_error_message()],
{
    lemma_cascade_all_match(toks, 0, program_kinds());
    assert(parse_error_seq(toks) =~= seq![name_error_message()]);
}

/// Law of the missing terminator: when the first seven tokens match the
/// grammar but the eighth is not the statement's closing `;`, the first
/// report produced is the kind-mismatch report that names the expected
/// semicolon.
pub proof fn lemma_missing_semicolon_error(toks: Seq<TokenView>)
    requires
        toks.len() >= 8,
        forall|i: int| 0 <= i < 7 ==> (#[trigger] toks[i]).kind == program_kinds()[i],
        toks[7].kind != TokenType::SemiColon,
    ensures
        parse_error_seq(toks).len() > 0,
        parse_error_seq(toks)[0] == mismatch_message(TokenType::SemiColon, toks[7].kind),
{
    let ks = program_kinds();
    let first7 = ks.subrange(0, 7);
    let rest = ks.subrange(7, 9);
    assert(ks =~= first7 + rest);
    lemma_cascade_concat(toks, 0, first7, rest);
    assert forall|i: int| 0 <= i < first7.len() implies toks[0 + i].kind == (
    #[trigger] first7[i]) by {
        assert(first7[i] == ks[i]);
    }
    lemma_cascade_all_match(toks, 0, first7);
    assert(rest[0] == TokenType::SemiColon);
    assert(cascade_errors(toks, 7, rest) == step_errors(toks, 7, TokenType::SemiColon)
        + cascade_errors(toks, 8, rest.drop_first()));
    assert(step_errors(toks, 7, TokenType::SemiColon) == seq![
        mismatch_message(TokenType::SemiColon, toks[7].kind),
    ]);
    assert(cascade_errors(toks, 0, ks)[0] == mismatch_message(TokenType::SemiColon, toks[7].kind));
    assert(parse_error_seq(toks)[0] == mismatch_message(TokenType::SemiColon, toks[7].kind));
}

} // verus!
