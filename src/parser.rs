use vstd::prelude::*;
use vstd::string::StrSliceExecFns;
use crate::ast::{
    ExprView, Expression, ExpressionStatement, Identifier, IdentifierView, InfixExpression,
    IntegerLiteral, LetStatement, PrefixExpression, Program, ReturnStatement, Statement, StmtView,
};
use crate::grammar::{
    decimal_value, expected_message, infix_of, integer_value, lemma_parse_expr_bounds,
    lemma_parse_statements_step, malformed_integer_message,
    no_prefix_message, parse_expr, parse_expression_stmt, parse_infix, parse_let, parse_return,
    parse_statements, parse_stmt, precedence_of, prefix_of, standard_tables, statement_boundary,
    HandlerTables, InfixHandler, PrefixHandler, CALL, EQUALS, LESSGREATER, LOWEST, PREFIX, PRODUCT,
    SUM,
};
use crate::lexer::{lemma_tokens_from, position_from, token_from, tokens_from, Lexer};
use crate::token::{at, Token, TokenKind, TokenView, KIND_COUNT};

verus! {

/// The view of an optional expression.
pub open spec fn opt_expr_view(e: Option<Expression>) -> Option<ExprView> {
    match e {
        Some(x) => Some(x@),
        None => None,
    }
}

/// The view of an optional statement.
pub open spec fn opt_stmt_view(s: Option<Statement>) -> Option<StmtView> {
    match s {
        Some(x) => Some(x@),
        None => None,
    }
}

/// How strongly `kind` binds as an operator.
pub fn precedence(kind: TokenKind) -> (r: u8)
    ensures
        r == precedence_of(kind),
{
    match kind {
        TokenKind::Eq | TokenKind::NotEq => EQUALS,
        TokenKind::Lt | TokenKind::Gt => LESSGREATER,
        TokenKind::Plus | TokenKind::Minus => SUM,
        TokenKind::Slash | TokenKind::Asterisk => PRODUCT,
        TokenKind::LParen => CALL,
        _ => LOWEST,
    }
}

fn expected_text(expected: TokenKind, got: TokenKind) -> (r: Vec<u8>)
    ensures
        r@ == expected_message(expected, got),
{
    let mut out = "expected next token to be ".as_bytes_vec();
    out.append(&mut expected.name_bytes());
    out.append(&mut ", got ".as_bytes_vec());
    out.append(&mut got.name_bytes());
    out.append(&mut " instead".as_bytes_vec());
    out
}

fn no_prefix_text(kind: TokenKind) -> (r: Vec<u8>)
    ensures
        r@ == no_prefix_message(kind),
{
    let mut out = "no prefix parse function for ".as_bytes_vec();
    out.append(&mut kind.name_bytes());
    out
}

fn malformed_integer_text(literal: &Vec<u8>) -> (r: Vec<u8>)
    ensures
        r@ == malformed_integer_message(literal@),
{
    let mut out = "could not parse integer ".as_bytes_vec();
    out.append(&mut literal.clone());
    out
}

proof fn lemma_decimal_prefix(s: Seq<u8>, k: int)
    requires
        0 <= k <= s.len(),
        forall|i: int| 0 <= i < s.len() ==> 0x30 <= #[trigger] s[i] <= 0x39,
    ensures
        0 <= decimal_value(s.subrange(0, k)) <= decimal_value(s),
    decreases s.len(),
{
    if s.len() > 0 {
        let p = s.drop_last();
        if k == s.len() {
            assert(s.subrange(0, k) =~= s);
            lemma_decimal_prefix(p, p.len() as int);
            assert(p.subrange(0, p.len() as int) =~= p);
        } else {
            lemma_decimal_prefix(p, k);
            assert(p.subrange(0, k) =~= s.subrange(0, k));
            lemma_decimal_prefix(p, p.len() as int);
            assert(p.subrange(0, p.len() as int) =~= p);
        }
    }
}

/// The value of a run of decimal digits, where it fits an `i64`.
pub fn parse_decimal(digits: &Vec<u8>) -> (r: Option<i64>)
    ensures
        r matches Some(v) ==> integer_value(digits@) == Some(v as int),
        r is None ==> integer_value(digits@) is None,
{
    if digits.len() == 0 {
        return None;
    }
    let mut value: i64 = 0;
    let mut i: usize = 0;
    while i < digits.len()
        invariant
            0 <= i <= digits@.len(),
            0 <= value,
            value == decimal_value(digits@.subrange(0, i as int)),
            forall|k: int| 0 <= k < i ==> 0x30 <= #[trigger] digits@[k] <= 0x39,
        decreases digits@.len() - i,
    {
        let c = digits[i];
        if c < 0x30 || c > 0x39 {
            return None;
        }
        let d = (c - 0x30) as i64;
        let ghost next = digits@.subrange(0, i + 1);
        assert(next.drop_last() =~= digits@.subrange(0, i as int));
        if value > (i64::MAX - d) / 10 {
            proof {
                assert(value * 10 + d > i64::MAX) by (nonlinear_arith)
                    requires
                        value > (i64::MAX - d) / 10,
                        0 <= d <= 9,
                ;
                if forall|k: int| 0 <= k < digits@.len() ==> 0x30 <= #[trigger] digits@[k] <= 0x39 {
                    lemma_decimal_prefix(digits@, i + 1);
                }
            }
            return None;
        }
        assert(value * 10 + d <= i64::MAX) by (nonlinear_arith)
            requires
                value <= (i64::MAX - d) / 10,
                0 <= d <= 9,
                0 <= value,
        ;
        value = value * 10 + d;
        i = i + 1;
    }
    assert(digits@.subrange(0, i as int) =~= digits@);
    Some(value)
}

/// A parser over the tokens of one scanner, with the current token and one token of
/// lookahead, the diagnostics recorded so far and the handler tables.
pub struct Parser {
    lexer: Lexer,
    cur_token: Token,
    peek_token: Token,
    errors: Vec<Vec<u8>>,
    prefix_parse_fns: Vec<Option<PrefixHandler>>,
    infix_parse_fns: Vec<Option<InfixHandler>>,
    source: Ghost<Seq<u8>>,
    start: Ghost<int>,
    index: Ghost<nat>,
}

impl Parser {
    /// The tokens the parser reads, ending with the end-of-input token.
    pub closed spec fn tokens(&self) -> Seq<TokenView> {
        tokens_from(self.source@, self.start@)
    }

    /// The index of the current token in `tokens()`.
    pub closed spec fn index(&self) -> int {
        self.index@ as int
    }

    /// The prefix and infix rules the parser dispatches on.
    pub closed spec fn tables(&self) -> HandlerTables {
        HandlerTables { prefix: self.prefix_parse_fns@, infix: self.infix_parse_fns@ }
    }

    /// The diagnostics recorded so far, in order.
    pub closed spec fn diagnostics(&self) -> Seq<Seq<u8>> {
        self.errors@.map_values(|e: Vec<u8>| e@)
    }

    /// The scanner stands just after the lookahead token, and the current and next
    /// tokens are those at `index()` and `index() + 1` of `tokens()`.
    pub closed spec fn wf(&self) -> bool {
        &&& self.lexer.wf()
        &&& self.lexer.input@ == self.source@
        &&& 0 <= self.start@
        &&& self.lexer.position == position_from(self.source@, self.start@, self.index@ + 2)
        &&& self.cur_token@ == token_from(self.source@, self.start@, self.index@)
        &&& self.peek_token@ == token_from(self.source@, self.start@, self.index@ + 1)
        &&& self.prefix_parse_fns@.len() == KIND_COUNT
        &&& self.infix_parse_fns@.len() == KIND_COUNT
    }

    /// The current token.
    pub open spec fn cur(&self) -> TokenView {
        at(self.tokens(), self.index())
    }

    /// The token after the current one.
    pub open spec fn peek(&self) -> TokenView {
        at(self.tokens(), self.index() + 1)
    }

    proof fn lemma_tokens(&self)
        requires
            self.wf(),
        ensures
            self.cur_token@ == self.cur(),
            self.peek_token@ == self.peek(),
            self.tokens().len() > 0,
            self.tokens().last().kind == TokenKind::Eof,
            self.cur().kind != TokenKind::Eof ==> self.index() < self.tokens().len() - 1,
    {
        lemma_tokens_from(self.source@, self.start@);
        assert(token_from(self.source@, self.start@, self.index@) == at(
            self.tokens(),
            self.index@ as int,
        ));
        assert(token_from(self.source@, self.start@, self.index@ + 1) == at(
            self.tokens(),
            self.index@ + 1 as int,
        ));
    }

    /// A parser reading the tokens that `l` scans from its cursor, with the language's
    /// own handler tables.
    pub fn new(l: Lexer) -> (p: Parser)
        requires
            l.wf(),
        ensures
            p.wf(),
            p.tokens() == tokens_from(l.input@, l.position as int),
            p.index() == 0,
            p.tables() == standard_tables(),
            p.diagnostics() == Seq::<Seq<u8>>::empty(),
    {
        let ghost source = l.input@;
        let ghost start = l.position as int;
        let mut lexer = l;
        let cur_token = lexer.next_token();
        let peek_token = lexer.next_token();
        let mut prefix_parse_fns: Vec<Option<PrefixHandler>> = Vec::new();
        let mut infix_parse_fns: Vec<Option<InfixHandler>> = Vec::new();
        let mut i: usize = 0;
        while i < KIND_COUNT
            invariant
                i <= KIND_COUNT,
                prefix_parse_fns@.len() == i,
                infix_parse_fns@.len() == i,
                forall|k: int| 0 <= k < i ==> prefix_parse_fns@[k] is None,
                forall|k: int| 0 <= k < i ==> infix_parse_fns@[k] is None,
            decreases KIND_COUNT - i,
        {
            prefix_parse_fns.push(None);
            infix_parse_fns.push(None);
            i = i + 1;
        }
        let mut p = Parser {
            lexer,
            cur_token,
            peek_token,
            errors: Vec::new(),
            prefix_parse_fns,
            infix_parse_fns,
            source: Ghost(source),
            start: Ghost(start),
            index: Ghost(0),
        };
        assert(p.diagnostics() =~= Seq::<Seq<u8>>::empty());
        p.register_prefix(TokenKind::Ident, PrefixHandler::Identifier);
        p.register_prefix(TokenKind::Int, PrefixHandler::IntegerLiteral);
        p.register_prefix(TokenKind::Bang, PrefixHandler::Operator);
        p.register_prefix(TokenKind::Minus, PrefixHandler::Operator);
        p.register_infix(TokenKind::Plus, InfixHandler::Binary);
        p.register_infix(TokenKind::Minus, InfixHandler::Binary);
        p.register_infix(TokenKind::Slash, InfixHandler::Binary);
        p.register_infix(TokenKind::Asterisk, InfixHandler::Binary);
        p.register_infix(TokenKind::Eq, InfixHandler::Binary);
        p.register_infix(TokenKind::NotEq, InfixHandler::Binary);
        p.register_infix(TokenKind::Lt, InfixHandler::Binary);
        p.register_infix(TokenKind::Gt, InfixHandler::Binary);
        assert(p.tables().prefix =~= standard_tables().prefix);
        assert(p.tables().infix =~= standard_tables().infix);
        p
    }

    /// Advances by one token.
    pub fn next_token(&mut self)
        requires
            old(self).wf(),
        ensures
            final(self).wf(),
            final(self).tokens() == old(self).tokens(),
            final(self).index() == old(self).index() + 1,
            final(self).tables() == old(self).tables(),
            final(self).diagnostics() == old(self).diagnostics(),
    {
        std::mem::swap(&mut self.cur_token, &mut self.peek_token);
        self.peek_token = self.lexer.next_token();
        self.index = Ghost(self.index@ + 1);
    }

    /// Makes `handler` the rule that starts an expression at tokens of `kind`.
    pub fn register_prefix(&mut self, kind: TokenKind, handler: PrefixHandler)
        requires
            old(self).wf(),
        ensures
            final(self).wf(),
            final(self).tokens() == old(self).tokens(),
            final(self).index() == old(self).index(),
            final(self).diagnostics() == old(self).diagnostics(),
            final(self).tables().infix == old(self).tables().infix,
            final(self).tables().prefix == old(self).tables().prefix.update(
                kind.spec_index() as int,
                Some(handler),
            ),
    {
        let i = kind.index();
        self.prefix_parse_fns.set(i, Some(handler));
    }

    /// Makes `handler` the rule that continues an expression at tokens of `kind`.
    pub fn register_infix(&mut self, kind: TokenKind, handler: InfixHandler)
        requires
            old(self).wf(),
        ensures
            final(self).wf(),
            final(self).tokens() == old(self).tokens(),
            final(self).index() == old(self).index(),
            final(self).diagnostics() == old(self).diagnostics(),
            final(self).tables().prefix == old(self).tables().prefix,
            final(self).tables().infix == old(self).tables().infix.update(
                kind.spec_index() as int,
                Some(handler),
            ),
    {
        let i = kind.index();
        self.infix_parse_fns.set(i, Some(handler));
    }

    fn prefix_handler(&self, kind: TokenKind) -> (r: Option<PrefixHandler>)
        requires
            self.wf(),
        ensures
            r == prefix_of(self.tables(), kind),
    {
        if kind == TokenKind::Eof {
            None
        } else {
            self.prefix_parse_fns[kind.index()]
        }
    }

    fn infix_handler(&self, kind: TokenKind) -> (r: Option<InfixHandler>)
        requires
            self.wf(),
        ensures
            r == infix_of(self.tables(), kind),
    {
        if kind == TokenKind::Eof {
            None
        } else {
            self.infix_parse_fns[kind.index()]
        }
    }

    pub fn is_cur_token(&self, t: TokenKind) -> (r: bool)
        requires
            self.wf(),
        ensures
            r == (self.cur().kind == t),
    {
        proof {
            self.lemma_tokens();
        }
        self.cur_token.kind == t
    }

    pub fn is_peek_token(&self, t: TokenKind) -> (r: bool)
        requires
            self.wf(),
        ensures
            r == (self.peek().kind == t),
    {
        proof {
            self.lemma_tokens();
        }
        self.peek_token.kind == t
    }

    /// How strongly the next token binds as an operator.
    pub fn peek_precedence(&self) -> (r: u8)
        requires
            self.wf(),
        ensures
            r == precedence_of(self.peek().kind),
    {
        proof {
            self.lemma_tokens();
        }
        precedence(self.peek_token.kind)
    }

    /// The diagnostics recorded so far.
    pub fn errors(&self) -> (r: Vec<Vec<u8>>)
        requires
            self.wf(),
        ensures
            r@.map_values(|e: Vec<u8>| e@) == self.diagnostics(),
    {
        let mut out: Vec<Vec<u8>> = Vec::new();
        let mut i: usize = 0;
        while i < self.errors.len()
            invariant
                i <= self.errors@.len(),
                out@.len() == i,
                forall|k: int| 0 <= k < i ==> (#[trigger] out@[k])@ == self.errors@[k]@,
            decreases self.errors@.len() - i,
        {
            out.push(self.errors[i].clone());
            i = i + 1;
        }
        assert(out@.map_values(|e: Vec<u8>| e@) =~= self.diagnostics());
        out
    }

    fn push_error(&mut self, message: Vec<u8>)
        requires
            old(self).wf(),
        ensures
            final(self).wf(),
            final(self).tokens() == old(self).tokens(),
            final(self).index() == old(self).index(),
            final(self).tables() == old(self).tables(),
            final(self).diagnostics() == old(self).diagnostics().push(message@),
    {
        self.errors.push(message);
        assert(self.diagnostics() =~= old(self).diagnostics().push(message@));
    }

    /// Records that the next token is not of kind `t`.
    pub fn peek_error(&mut self, t: TokenKind)
        requires
            old(self).wf(),
        ensures
            final(self).wf(),
            final(self).tokens() == old(self).tokens(),
            final(self).index() == old(self).index(),
            final(self).tables() == old(self).tables(),
            final(self).diagnostics() == old(self).diagnostics().push(
                expected_message(t, old(self).peek().kind),
            ),
    {
        proof {
            self.lemma_tokens();
        }
        let message = expected_text(t, self.peek_token.kind);
        self.push_error(message);
    }

    /// Advances onto the next token if it is of kind `t`; otherwise records a
    /// diagnostic and stays.
    pub fn expect_peek(&mut self, t: TokenKind) -> (r: bool)
        requires
            old(self).wf(),
        ensures
            final(self).wf(),
            final(self).tokens() == old(self).tokens(),
            final(self).tables() == old(self).tables(),
            r == (old(self).peek().kind == t),
            r ==> final(self).index() == old(self).index() + 1 && final(self).diagnostics()
                == old(self).diagnostics(),
            !r ==> final(self).index() == old(self).index() && final(self).diagnostics()
                == old(self).diagnostics().push(expected_message(t, old(self).peek().kind)),
    {
        if self.is_peek_token(t) {
            self.next_token();
            true
        } else {
            self.peek_error(t);
            false
        }
    }

    /// The current token as a name.
    pub fn parse_identifier(&self) -> (r: Expression)
        requires
            self.wf(),
        ensures
            r@ == ExprView::Identifier(IdentifierView { token: self.cur(), value: self.cur().literal }),
    {
        proof {
            self.lemma_tokens();
        }
        Expression::Identifier(
            Identifier { token: self.cur_token.duplicate(), value: self.cur_token.literal.clone() },
        )
    }

    /// The current token as a decimal integer; a literal that is no `i64` is recorded
    /// as a diagnostic.
    pub fn parse_integer_literal(&mut self) -> (r: Option<Expression>)
        requires
            old(self).wf(),
        ensures
            final(self).wf(),
            final(self).tokens() == old(self).tokens(),
            final(self).index() == old(self).index(),
            final(self).tables() == old(self).tables(),
            match integer_value(old(self).cur().literal) {
                Some(v) => opt_expr_view(r) == Some(ExprView::Integer(old(self).cur(), v))
                    && final(self).diagnostics() == old(self).diagnostics(),
                None => r is None && final(self).diagnostics() == old(self).diagnostics().push(
                    malformed_integer_message(old(self).cur().literal),
                ),
            },
    {
        proof {
            self.lemma_tokens();
        }
        match parse_decimal(&self.cur_token.literal) {
            Some(value) => Some(
                Expression::IntegerLiteral(
                    IntegerLiteral { token: self.cur_token.duplicate(), value },
                ),
            ),
            None => {
                let message = malformed_integer_text(&self.cur_token.literal);
                self.push_error(message);
                None
            },
        }
    }

    fn no_prefix_parse_fn_error(&mut self, kind: TokenKind)
        requires
            old(self).wf(),
        ensures
            final(self).wf(),
            final(self).tokens() == old(self).tokens(),
            final(self).index() == old(self).index(),
            final(self).tables() == old(self).tables(),
            final(self).diagnostics() == old(self).diagnostics().push(no_prefix_message(kind)),
    {
        let message = no_prefix_text(kind);
        self.push_error(message);
    }

    /// The current token as a unary operator applied to the expression after it.
    pub fn parse_prefix_expression(&mut self) -> (r: Option<Expression>)
        requires
            old(self).wf(),
            old(self).cur().kind != TokenKind::Eof,
        ensures
            final(self).wf(),
            final(self).tokens() == old(self).tokens(),
            final(self).tables() == old(self).tables(),
            ({
                let s = parse_expr(old(self).tokens(), old(self).tables(), old(self).index() + 1, PREFIX);
                &&& final(self).index() == s.1
                &&& final(self).diagnostics() == old(self).diagnostics() + s.2
                &&& opt_expr_view(r) == match s.0 {
                    Some(right) => Some(ExprView::Prefix(old(self).cur(), Box::new(right))),
                    None => None,
                }
            }),
        decreases old(self).tokens().len() - old(self).index(), 0int,
    {
        proof {
            self.lemma_tokens();
        }
        let token = self.cur_token.duplicate();
        self.next_token();
        match self.parse_expression(PREFIX) {
            Some(right) => Some(Expression::Prefix(PrefixExpression { token, right: Box::new(right) })),
            None => None,
        }
    }

    /// The current token as a binary operator with `left` before it and the expression
    /// of higher precedence after it.
    pub fn parse_infix_expression(&mut self, left: Expression) -> (r: Option<Expression>)
        requires
            old(self).wf(),
            old(self).cur().kind != TokenKind::Eof,
        ensures
            final(self).wf(),
            final(self).tokens() == old(self).tokens(),
            final(self).tables() == old(self).tables(),
            ({
                let s = parse_expr(
                    old(self).tokens(),
                    old(self).tables(),
                    old(self).index() + 1,
                    precedence_of(old(self).cur().kind),
                );
                &&& final(self).index() == s.1
                &&& final(self).diagnostics() == old(self).diagnostics() + s.2
                &&& opt_expr_view(r) == match s.0 {
                    Some(right) => Some(
                        ExprView::Infix(old(self).cur(), Box::new(left@), Box::new(right)),
                    ),
                    None => None,
                }
            }),
        decreases old(self).tokens().len() - old(self).index(), 0int,
    {
        proof {
            self.lemma_tokens();
        }
        let token = self.cur_token.duplicate();
        let prec = precedence(self.cur_token.kind);
        self.next_token();
        match self.parse_expression(prec) {
            Some(right) => Some(
                Expression::Infix(
                    InfixExpression { token, left: Box::new(left), right: Box::new(right) },
                ),
            ),
            None => None,
        }
    }

    /// Parses the expression that starts at the current token, continuing it while
    /// the next operator binds more strongly than `precedence`.
    #[verifier::rlimit(40)]
    pub fn parse_expression(&mut self, precedence: u8) -> (r: Option<Expression>)
        requires
            old(self).wf(),
        ensures
            final(self).wf(),
            final(self).tokens() == old(self).tokens(),
            final(self).tables() == old(self).tables(),
            ({
                let s = parse_expr(old(self).tokens(), old(self).tables(), old(self).index(), precedence);
                &&& opt_expr_view(r) == s.0
                &&& final(self).index() == s.1
                &&& final(self).diagnostics() == old(self).diagnostics() + s.2
            }),
        decreases old(self).tokens().len() - old(self).index(), 1int,
    {
        proof {
            self.lemma_tokens();
        }
        let ghost ts = self.tokens();
        let ghost g = self.tables();
        let ghost i = self.index();
        let ghost d = self.diagnostics();
        let kind = self.cur_token.kind;
        let mut left = match self.prefix_handler(kind) {
            None => {
                self.no_prefix_parse_fn_error(kind);
                return None;
            },
            Some(PrefixHandler::Identifier) => self.parse_identifier(),
            Some(PrefixHandler::IntegerLiteral) => match self.parse_integer_literal() {
                Some(e) => e,
                None => return None,
            },
            Some(PrefixHandler::Operator) => {
                proof {
                    lemma_parse_expr_bounds(ts, g, i + 1, PREFIX);
                }
                match self.parse_prefix_expression() {
                    Some(e) => e,
                    None => return None,
                }
            },
        };
        proof {
            self.lemma_tokens();
        }
        while !self.is_peek_token(TokenKind::Semicolon) && precedence < self.peek_precedence()
            invariant
                self.wf(),
                ts == old(self).tokens(),
                g == old(self).tables(),
                i == old(self).index(),
                d == old(self).diagnostics(),
                self.tokens() == ts,
                self.tables() == g,
                self.diagnostics() == d,
                i <= self.index() < ts.len(),
                parse_expr(ts, g, i, precedence) == parse_infix(ts, g, self.index(), left@, precedence),
            decreases ts.len() - self.index(),
        {
            proof {
                self.lemma_tokens();
            }
            let ghost j = self.index();
            if self.infix_handler(self.peek_token.kind).is_none() {
                return Some(left);
            }
            self.next_token();
            proof {
                lemma_parse_expr_bounds(ts, g, j + 2, precedence_of(at(ts, j + 1).kind));
            }
            match self.parse_infix_expression(left) {
                Some(e) => left = e,
                None => return None,
            }
        }
        assert(d + Seq::<Seq<u8>>::empty() =~= d);
        Some(left)
    }


    /// `let <ident> = <expression>;` at the current token.
    pub fn parse_let_statement(&mut self) -> (r: Option<LetStatement>)
        requires
            old(self).wf(),
        ensures
            final(self).wf(),
            final(self).tokens() == old(self).tokens(),
            final(self).tables() == old(self).tables(),
            ({
                let s = parse_let(old(self).tokens(), old(self).tables(), old(self).index());
                &&& final(self).index() == s.1
                &&& final(self).diagnostics() == old(self).diagnostics() + s.2
                &&& s.0 == match r {
                    Some(x) => Some(Statement::Let(x)@),
                    None => None,
                }
            }),
    {
        proof {
            self.lemma_tokens();
        }
        let ghost d = self.diagnostics();
        let token = self.cur_token.duplicate();
        if !self.expect_peek(TokenKind::Ident) {
            return None;
        }
        proof {
            self.lemma_tokens();
        }
        let name = Identifier {
            token: self.cur_token.duplicate(),
            value: self.cur_token.literal.clone(),
        };
        if !self.expect_peek(TokenKind::Assign) {
            return None;
        }
        self.next_token();
        proof {
            lemma_parse_expr_bounds(self.tokens(), self.tables(), self.index(), LOWEST);
        }
        let value = match self.parse_expression(LOWEST) {
            Some(v) => v,
            None => return None,
        };
        assert(d + Seq::<Seq<u8>>::empty() =~= d);
        if !self.expect_peek(TokenKind::Semicolon) {
            return None;
        }
        Some(LetStatement { token, name, value })
    }

    /// `return;` or `return <expression>;` at the current token.
    pub fn parse_return_statement(&mut self) -> (r: Option<ReturnStatement>)
        requires
            old(self).wf(),
        ensures
            final(self).wf(),
            final(self).tokens() == old(self).tokens(),
            final(self).tables() == old(self).tables(),
            ({
                let s = parse_return(old(self).tokens(), old(self).tables(), old(self).index());
                &&& final(self).index() == s.1
                &&& final(self).diagnostics() == old(self).diagnostics() + s.2
                &&& s.0 == match r {
                    Some(x) => Some(Statement::Return(x)@),
                    None => None,
                }
            }),
    {
        proof {
            self.lemma_tokens();
        }
        let ghost d = self.diagnostics();
        let token = self.cur_token.duplicate();
        if self.is_peek_token(TokenKind::Semicolon) {
            self.next_token();
            assert(d + Seq::<Seq<u8>>::empty() =~= d);
            return Some(ReturnStatement { token, return_value: None });
        }
        self.next_token();
        proof {
            lemma_parse_expr_bounds(self.tokens(), self.tables(), self.index(), LOWEST);
        }
        let value = match self.parse_expression(LOWEST) {
            Some(v) => v,
            None => return None,
        };
        assert(d + Seq::<Seq<u8>>::empty() =~= d);
        if !self.expect_peek(TokenKind::Semicolon) {
            return None;
        }
        Some(ReturnStatement { token, return_value: Some(value) })
    }

    /// An expression at the current token, consuming a semicolon that follows it.
    pub fn parse_expression_statement(&mut self) -> (r: Option<ExpressionStatement>)
        requires
            old(self).wf(),
        ensures
            final(self).wf(),
            final(self).tokens() == old(self).tokens(),
            final(self).tables() == old(self).tables(),
            ({
                let s = parse_expression_stmt(old(self).tokens(), old(self).tables(), old(self).index());
                &&& final(self).index() == s.1
                &&& final(self).diagnostics() == old(self).diagnostics() + s.2
                &&& s.0 == match r {
                    Some(x) => Some(Statement::Expression(x)@),
                    None => None,
                }
            }),
    {
        proof {
            self.lemma_tokens();
        }
        let ghost d = self.diagnostics();
        let token = self.cur_token.duplicate();
        proof {
            lemma_parse_expr_bounds(self.tokens(), self.tables(), self.index(), LOWEST);
        }
        let expression = match self.parse_expression(LOWEST) {
            Some(e) => e,
            None => return None,
        };
        if self.is_peek_token(TokenKind::Semicolon) {
            self.next_token();
        }
        assert(d + Seq::<Seq<u8>>::empty() =~= d);
        Some(ExpressionStatement { token, expression })
    }

    /// One statement at the current token, chosen by its kind.
    pub fn parse_statement(&mut self) -> (r: Option<Statement>)
        requires
            old(self).wf(),
        ensures
            final(self).wf(),
            final(self).tokens() == old(self).tokens(),
            final(self).tables() == old(self).tables(),
            ({
                let s = parse_stmt(old(self).tokens(), old(self).tables(), old(self).index());
                &&& final(self).index() == s.1
                &&& final(self).diagnostics() == old(self).diagnostics() + s.2
                &&& opt_stmt_view(r) == s.0
            }),
    {
        proof {
            self.lemma_tokens();
        }
        match self.cur_token.kind {
            TokenKind::Let => match self.parse_let_statement() {
                Some(s) => Some(Statement::Let(s)),
                None => None,
            },
            TokenKind::Return => match self.parse_return_statement() {
                Some(s) => Some(Statement::Return(s)),
                None => None,
            },
            _ => match self.parse_expression_statement() {
                Some(s) => Some(Statement::Expression(s)),
                None => None,
            },
        }
    }

    /// Advances until the current token is a semicolon or the end of the input.
    fn skip_to_statement_end(&mut self)
        requires
            old(self).wf(),
        ensures
            final(self).wf(),
            final(self).tokens() == old(self).tokens(),
            final(self).tables() == old(self).tables(),
            final(self).diagnostics() == old(self).diagnostics(),
            final(self).index() == statement_boundary(old(self).tokens(), old(self).index()),
    {
        proof {
            self.lemma_tokens();
        }
        while !self.is_cur_token(TokenKind::Semicolon) && !self.is_cur_token(TokenKind::Eof)
            invariant
                self.wf(),
                self.tokens() == old(self).tokens(),
                self.tables() == old(self).tables(),
                self.diagnostics() == old(self).diagnostics(),
                statement_boundary(self.tokens(), self.index()) == statement_boundary(
                    old(self).tokens(),
                    old(self).index(),
                ),
            decreases self.tokens().len() - self.index(),
        {
            proof {
                self.lemma_tokens();
            }
            self.next_token();
        }
    }

    /// Parses statements up to the end of the input. A statement that fails leaves a
    /// diagnostic and no node, and parsing resumes after the next semicolon.
    #[verifier::rlimit(40)]
    pub fn parse_program(&mut self) -> (r: Program)
        requires
            old(self).wf(),
        ensures
            final(self).wf(),
            final(self).tokens() == old(self).tokens(),
            final(self).tables() == old(self).tables(),
            r@ == parse_statements(old(self).tokens(), old(self).tables(), old(self).index()).0,
            final(self).diagnostics() == old(self).diagnostics() + parse_statements(
                old(self).tokens(),
                old(self).tables(),
                old(self).index(),
            ).1,
    {
        let ghost ts = self.tokens();
        let ghost g = self.tables();
        let ghost whole = parse_statements(ts, g, self.index());
        let mut program = Program { statements: Vec::new() };
        proof {
            self.lemma_tokens();
            assert(program@ =~= Seq::<StmtView>::empty());
            assert(self.diagnostics() + whole.1 =~= old(self).diagnostics() + whole.1);
        }
        while !self.is_cur_token(TokenKind::Eof)
            invariant
                self.wf(),
                ts == old(self).tokens(),
                g == old(self).tables(),
                whole == parse_statements(ts, g, old(self).index()),
                self.tokens() == ts,
                self.tables() == g,
                0 <= self.index(),
                program@ + parse_statements(ts, g, self.index()).0 == whole.0,
                self.diagnostics() + parse_statements(ts, g, self.index()).1 == old(
                    self,
                ).diagnostics() + whole.1,
            decreases ts.len() + 1 - self.index(),
        {
            proof {
                self.lemma_tokens();
                lemma_parse_statements_step(ts, g, self.index());
            }
            let ghost i = self.index();
            let ghost before = program@;
            let ghost diags = self.diagnostics();
            let ghost r = parse_stmt(ts, g, i);
            match self.parse_statement() {
                Some(s) => {
                    program.statements.push(s);
                    proof {
                        assert(program@ =~= before + seq![r.0->0]);
                    }
                },
                None => {
                    self.skip_to_statement_end();
                    assert(program@ =~= before + Seq::<StmtView>::empty());
                },
            }
            proof {
                let next = parse_statements(ts, g, self.index() + 1);
                assert(before + parse_statements(ts, g, i).0 =~= program@ + next.0);
                assert(diags + parse_statements(ts, g, i).1 =~= self.diagnostics() + next.1);
            }
            self.next_token();
        }
        proof {
            assert(program@ + Seq::<StmtView>::empty() =~= program@);
            assert(self.diagnostics() + Seq::<Seq<u8>>::empty() =~= self.diagnostics());
        }
        program
    }

}

/// The statements and diagnostics of a whole source text.
pub open spec fn parse_text(input: Seq<u8>) -> (Seq<StmtView>, Seq<Seq<u8>>) {
    parse_statements(tokens_from(input, 0), standard_tables(), 0)
}

/// Scans and parses a whole source text with the language's own rules.
pub fn parse(input: Vec<u8>) -> (r: (Program, Vec<Vec<u8>>))
    requires
        input.len() < usize::MAX,
    ensures
        r.0@ == parse_text(input@).0,
        r.1@.map_values(|e: Vec<u8>| e@) == parse_text(input@).1,
{
    let mut p = Parser::new(Lexer::new(input));
    let program = p.parse_program();
    assert(Seq::<Seq<u8>>::empty() + parse_text(input@).1 =~= parse_text(input@).1);
    (program, p.errors())
}

} // verus!
