use vstd::prelude::*;
use vstd::string::StringSliceAdditionalSpecFns;
use crate::ast::{ExprView, IdentifierView, StmtView};
use crate::token::{at, TokenKind, TokenView, KIND_COUNT};

verus! {

/// Binding strengths of operators, weakest first.
pub const LOWEST: u8 = 1;

pub const EQUALS: u8 = 2;

pub const LESSGREATER: u8 = 3;

pub const SUM: u8 = 4;

pub const PRODUCT: u8 = 5;

pub const PREFIX: u8 = 6;

pub const CALL: u8 = 7;

/// How strongly a token binds as an operator; `LOWEST` for a kind that is none.
pub open spec fn precedence_of(kind: TokenKind) -> u8 {
    match kind {
        TokenKind::Eq | TokenKind::NotEq => EQUALS,
        TokenKind::Lt | TokenKind::Gt => LESSGREATER,
        TokenKind::Plus | TokenKind::Minus => SUM,
        TokenKind::Slash | TokenKind::Asterisk => PRODUCT,
        TokenKind::LParen => CALL,
        _ => LOWEST,
    }
}

/// The rule that starts an expression at a token.
#[derive(Clone, Copy, Debug, PartialEq, Eq, Structural)]
pub enum PrefixHandler {
    /// The token is a name.
    Identifier,
    /// The token's digits are a decimal integer.
    IntegerLiteral,
    /// The token is a unary operator applied to the expression after it.
    Operator,
}

/// The rule that continues an expression at an operator token.
#[derive(Clone, Copy, Debug, PartialEq, Eq, Structural)]
pub enum InfixHandler {
    /// A left-associative binary operator of the token's precedence.
    Binary,
}

/// The handler tables, indexed by `TokenKind::spec_index`.
pub ghost struct HandlerTables {
    pub prefix: Seq<Option<PrefixHandler>>,
    pub infix: Seq<Option<InfixHandler>>,
}

/// The prefix rule for a kind; the end of the input never starts an expression.
pub open spec fn prefix_of(g: HandlerTables, kind: TokenKind) -> Option<PrefixHandler> {
    if kind == TokenKind::Eof || kind.spec_index() >= g.prefix.len() {
        None
    } else {
        g.prefix[kind.spec_index() as int]
    }
}

/// The infix rule for a kind; the end of the input never continues an expression.
pub open spec fn infix_of(g: HandlerTables, kind: TokenKind) -> Option<InfixHandler> {
    if kind == TokenKind::Eof || kind.spec_index() >= g.infix.len() {
        None
    } else {
        g.infix[kind.spec_index() as int]
    }
}

/// The language's own rules: names, integers, `!` and `-` start an expression, and
/// the arithmetic and comparison operators continue one.
pub open spec fn standard_tables() -> HandlerTables {
    HandlerTables {
        prefix: Seq::new(
            KIND_COUNT as nat,
            |i: int|
                if i == TokenKind::Ident.spec_index() {
                    Some(PrefixHandler::Identifier)
                } else if i == TokenKind::Int.spec_index() {
                    Some(PrefixHandler::IntegerLiteral)
                } else if i == TokenKind::Bang.spec_index() || i == TokenKind::Minus.spec_index() {
                    Some(PrefixHandler::Operator)
                } else {
                    None
                },
        ),
        infix: Seq::new(
            KIND_COUNT as nat,
            |i: int|
                if i == TokenKind::Plus.spec_index() || i == TokenKind::Minus.spec_index() || i
                    == TokenKind::Slash.spec_index() || i == TokenKind::Asterisk.spec_index() || i
                    == TokenKind::Eq.spec_index() || i == TokenKind::NotEq.spec_index() || i
                    == TokenKind::Lt.spec_index() || i == TokenKind::Gt.spec_index() {
                    Some(InfixHandler::Binary)
                } else {
                    None
                },
        ),
    }
}

/// "expected next token to be <expected>, got <got> instead"
pub open spec fn expected_message(expected: TokenKind, got: TokenKind) -> Seq<u8> {
    "expected next token to be ".spec_bytes() + expected.spec_name().spec_bytes()
        + ", got ".spec_bytes() + got.spec_name().spec_bytes() + " instead".spec_bytes()
}

/// "no prefix parse function for <kind>"
pub open spec fn no_prefix_message(kind: TokenKind) -> Seq<u8> {
    "no prefix parse function for ".spec_bytes() + kind.spec_name().spec_bytes()
}

/// "could not parse integer <literal>"
pub open spec fn malformed_integer_message(literal: Seq<u8>) -> Seq<u8> {
    "could not parse integer ".spec_bytes() + literal
}

/// The value of a sequence of decimal digits.
pub open spec fn decimal_value(digits: Seq<u8>) -> int
    decreases digits.len(),
{
    if digits.len() == 0 {
        0
    } else {
        decimal_value(digits.drop_last()) * 10 + (digits.last() - 0x30)
    }
}

/// The value of an integer literal, where it is a non-empty run of digits whose value
/// fits an `i64`.
pub open spec fn integer_value(literal: Seq<u8>) -> Option<int> {
    if literal.len() > 0 && (forall|i: int| 0 <= i < literal.len() ==> 0x30 <= #[trigger] literal[i]
        <= 0x39) && decimal_value(literal) <= i64::MAX {
        Some(decimal_value(literal))
    } else {
        None
    }
}

/// The outcome of parsing from a token index: the tree, if one was built, the index of
/// the last token consumed, and the diagnostics recorded on the way.
pub type Parsed<T> = (Option<T>, int, Seq<Seq<u8>>);

/// Parses an expression whose first token is at `i`, continuing it while operators
/// bind more strongly than `prec`.
pub open spec fn parse_expr(ts: Seq<TokenView>, g: HandlerTables, i: int, prec: u8) -> Parsed<
    ExprView,
>
    decreases ts.len() - i, 1int,
{
    let cur = at(ts, i);
    match prefix_of(g, cur.kind) {
        None => (None, i, seq![no_prefix_message(cur.kind)]),
        Some(PrefixHandler::Identifier) => parse_infix(
            ts,
            g,
            i,
            ExprView::Identifier(IdentifierView { token: cur, value: cur.literal }),
            prec,
        ),
        Some(PrefixHandler::IntegerLiteral) => match integer_value(cur.literal) {
            None => (None, i, seq![malformed_integer_message(cur.literal)]),
            Some(v) => parse_infix(ts, g, i, ExprView::Integer(cur, v), prec),
        },
        Some(PrefixHandler::Operator) => {
            let r = parse_expr(ts, g, i + 1, PREFIX);
            match r.0 {
                None => r,
                Some(right) => if i < r.1 <= ts.len() {
                    parse_infix(ts, g, r.1, ExprView::Prefix(cur, Box::new(right)), prec)
                } else {
                    (None, r.1, Seq::empty())
                },
            }
        },
    }
}

/// Continues the expression `left`, whose last token is at `j`, with the operators
/// that follow it and bind more strongly than `prec`.
pub open spec fn parse_infix(
    ts: Seq<TokenView>,
    g: HandlerTables,
    j: int,
    left: ExprView,
    prec: u8,
) -> Parsed<ExprView>
    decreases ts.len() - j, 0int,
{
    let peek = at(ts, j + 1);
    if peek.kind == TokenKind::Semicolon || prec >= precedence_of(peek.kind) {
        (Some(left), j, Seq::empty())
    } else {
        match infix_of(g, peek.kind) {
            None => (Some(left), j, Seq::empty()),
            Some(InfixHandler::Binary) => {
                let r = parse_expr(ts, g, j + 2, precedence_of(peek.kind));
                match r.0 {
                    None => r,
                    Some(right) => if j < r.1 <= ts.len() {
                        parse_infix(
                            ts,
                            g,
                            r.1,
                            ExprView::Infix(peek, Box::new(left), Box::new(right)),
                            prec,
                        )
                    } else {
                        (None, r.1, Seq::empty())
                    },
                }
            },
        }
    }
}

/// `let <ident> = <expression>;` starting at `i`.
pub open spec fn parse_let(ts: Seq<TokenView>, g: HandlerTables, i: int) -> Parsed<StmtView> {
    let name = at(ts, i + 1);
    if name.kind != TokenKind::Ident {
        (None, i, seq![expected_message(TokenKind::Ident, name.kind)])
    } else if at(ts, i + 2).kind != TokenKind::Assign {
        (None, i + 1, seq![expected_message(TokenKind::Assign, at(ts, i + 2).kind)])
    } else {
        let r = parse_expr(ts, g, i + 3, LOWEST);
        match r.0 {
            None => (None, r.1, r.2),
            Some(value) => if at(ts, r.1 + 1).kind == TokenKind::Semicolon {
                (
                    Some(
                        StmtView::Let(
                            at(ts, i),
                            IdentifierView { token: name, value: name.literal },
                            value,
                        ),
                    ),
                    r.1 + 1,
                    Seq::empty(),
                )
            } else {
                (None, r.1, seq![expected_message(TokenKind::Semicolon, at(ts, r.1 + 1).kind)])
            },
        }
    }
}

/// `return;` or `return <expression>;` starting at `i`.
pub open spec fn parse_return(ts: Seq<TokenView>, g: HandlerTables, i: int) -> Parsed<StmtView> {
    if at(ts, i + 1).kind == TokenKind::Semicolon {
        (Some(StmtView::Return(at(ts, i), None)), i + 1, Seq::empty())
    } else {
        let r = parse_expr(ts, g, i + 1, LOWEST);
        match r.0 {
            None => (None, r.1, r.2),
            Some(value) => if at(ts, r.1 + 1).kind == TokenKind::Semicolon {
                (Some(StmtView::Return(at(ts, i), Some(value))), r.1 + 1, Seq::empty())
            } else {
                (None, r.1, seq![expected_message(TokenKind::Semicolon, at(ts, r.1 + 1).kind)])
            },
        }
    }
}

/// An expression starting at `i`, with an optional closing semicolon.
pub open spec fn parse_expression_stmt(ts: Seq<TokenView>, g: HandlerTables, i: int) -> Parsed<
    StmtView,
> {
    let r = parse_expr(ts, g, i, LOWEST);
    match r.0 {
        None => (None, r.1, r.2),
        Some(e) => if at(ts, r.1 + 1).kind == TokenKind::Semicolon {
            (Some(StmtView::Expression(at(ts, i), e)), r.1 + 1, Seq::empty())
        } else {
            (Some(StmtView::Expression(at(ts, i), e)), r.1, Seq::empty())
        },
    }
}

/// One statement starting at `i`, chosen by its first token.
pub open spec fn parse_stmt(ts: Seq<TokenView>, g: HandlerTables, i: int) -> Parsed<StmtView> {
    match at(ts, i).kind {
        TokenKind::Let => parse_let(ts, g, i),
        TokenKind::Return => parse_return(ts, g, i),
        _ => parse_expression_stmt(ts, g, i),
    }
}

/// The first index at or after `k` that holds a semicolon or the end of the input.
pub open spec fn statement_boundary(ts: Seq<TokenView>, k: int) -> int
    decreases ts.len() - k,
{
    let kind = at(ts, k).kind;
    if kind == TokenKind::Semicolon || kind == TokenKind::Eof {
        k
    } else {
        statement_boundary(ts, k + 1)
    }
}

/// The statements from index `i` to the end of the input, and the diagnostics; after a
/// statement that fails, parsing resumes after the next semicolon.
pub open spec fn parse_statements(ts: Seq<TokenView>, g: HandlerTables, i: int) -> (
    Seq<StmtView>,
    Seq<Seq<u8>>,
)
    decreases ts.len() - i,
{
    if at(ts, i).kind == TokenKind::Eof {
        (Seq::empty(), Seq::empty())
    } else {
        let r = parse_stmt(ts, g, i);
        let j = match r.0 {
            Some(_) => r.1,
            None => statement_boundary(ts, r.1),
        };
        let here = match r.0 {
            Some(s) => seq![s],
            None => Seq::empty(),
        };
        if i <= j < ts.len() {
            let rest = parse_statements(ts, g, j + 1);
            (here + rest.0, r.2 + rest.1)
        } else {
            (here, r.2)
        }
    }
}

/// Parsing an expression consumes tokens forward from where it starts, and a tree is
/// built only from real tokens, with no diagnostic.
pub proof fn lemma_parse_expr_bounds(ts: Seq<TokenView>, g: HandlerTables, i: int, prec: u8)
    requires
        0 <= i,
    ensures
        i <= parse_expr(ts, g, i, prec).1,
        i <= ts.len() ==> parse_expr(ts, g, i, prec).1 <= ts.len(),
        parse_expr(ts, g, i, prec).0 is Some ==> parse_expr(ts, g, i, prec).1 < ts.len()
            && parse_expr(ts, g, i, prec).2 == Seq::<Seq<u8>>::empty(),
        parse_expr(ts, g, i, prec).0 is None ==> parse_expr(ts, g, i, prec).2.len() == 1,
    decreases ts.len() - i, 1int,
{
    let cur = at(ts, i);
    match prefix_of(g, cur.kind) {
        None => {},
        Some(PrefixHandler::Identifier) => {
            lemma_parse_infix_bounds(ts, g, i, ExprView::Identifier(IdentifierView { token: cur, value: cur.literal }), prec);
        },
        Some(PrefixHandler::IntegerLiteral) => {
            match integer_value(cur.literal) {
                None => {},
                Some(v) => {
                    lemma_parse_infix_bounds(ts, g, i, ExprView::Integer(cur, v), prec);
                },
            }
        },
        Some(PrefixHandler::Operator) => {
            lemma_parse_expr_bounds(ts, g, i + 1, PREFIX);
            let r = parse_expr(ts, g, i + 1, PREFIX);
            match r.0 {
                None => {},
                Some(right) => {
                    lemma_parse_infix_bounds(ts, g, r.1, ExprView::Prefix(cur, Box::new(right)), prec);
                },
            }
        },
    }
}

/// Continuing an expression consumes tokens forward from its last token.
pub proof fn lemma_parse_infix_bounds(
    ts: Seq<TokenView>,
    g: HandlerTables,
    j: int,
    left: ExprView,
    prec: u8,
)
    requires
        0 <= j < ts.len(),
    ensures
        j <= parse_infix(ts, g, j, left, prec).1 <= ts.len(),
        parse_infix(ts, g, j, left, prec).0 is Some ==> parse_infix(ts, g, j, left, prec).1
            < ts.len() && parse_infix(ts, g, j, left, prec).2 == Seq::<Seq<u8>>::empty(),
        parse_infix(ts, g, j, left, prec).0 is None ==> parse_infix(ts, g, j, left, prec).2.len()
            == 1,
    decreases ts.len() - j, 0int,
{
    let peek = at(ts, j + 1);
    if peek.kind == TokenKind::Semicolon || prec >= precedence_of(peek.kind) {
    } else {
        match infix_of(g, peek.kind) {
            None => {},
            Some(InfixHandler::Binary) => {
                lemma_parse_expr_bounds(ts, g, j + 2, precedence_of(peek.kind));
                let r = parse_expr(ts, g, j + 2, precedence_of(peek.kind));
                match r.0 {
                    None => {},
                    Some(right) => {
                        lemma_parse_infix_bounds(
                            ts,
                            g,
                            r.1,
                            ExprView::Infix(peek, Box::new(left), Box::new(right)),
                            prec,
                        );
                    },
                }
            },
        }
    }
}

/// Parsing a statement consumes tokens forward from where it starts; a failed one
/// records exactly one diagnostic, a parsed one none.
pub proof fn lemma_parse_stmt_bounds(ts: Seq<TokenView>, g: HandlerTables, i: int)
    requires
        0 <= i < ts.len(),
    ensures
        i <= parse_stmt(ts, g, i).1 <= ts.len(),
        parse_stmt(ts, g, i).0 is Some ==> parse_stmt(ts, g, i).1 < ts.len()
            && parse_stmt(ts, g, i).2 == Seq::<Seq<u8>>::empty(),
        parse_stmt(ts, g, i).0 is None ==> parse_stmt(ts, g, i).2.len() == 1,
{
    lemma_parse_expr_bounds(ts, g, i, LOWEST);
    lemma_parse_expr_bounds(ts, g, i + 1, LOWEST);
    lemma_parse_expr_bounds(ts, g, i + 3, LOWEST);
}

/// The recovery point lies at or after where the search starts.
pub proof fn lemma_statement_boundary(ts: Seq<TokenView>, k: int)
    requires
        0 <= k,
    ensures
        k <= statement_boundary(ts, k),
        k <= ts.len() ==> statement_boundary(ts, k) <= ts.len(),
        at(ts, statement_boundary(ts, k)).kind == TokenKind::Semicolon || at(
            ts,
            statement_boundary(ts, k),
        ).kind == TokenKind::Eof,
    decreases ts.len() - k,
{
    let kind = at(ts, k).kind;
    if !(kind == TokenKind::Semicolon || kind == TokenKind::Eof) {
        lemma_statement_boundary(ts, k + 1);
    }
}

/// One step of the statement loop: the statement at `i`, then the statements after
/// the point where parsing resumes.
pub proof fn lemma_parse_statements_step(ts: Seq<TokenView>, g: HandlerTables, i: int)
    requires
        0 <= i < ts.len(),
        at(ts, i).kind != TokenKind::Eof,
    ensures
        ({
            let r = parse_stmt(ts, g, i);
            let j = match r.0 {
                Some(_) => r.1,
                None => statement_boundary(ts, r.1),
            };
            let here = match r.0 {
                Some(s) => seq![s],
                None => Seq::empty(),
            };
            &&& i <= j <= ts.len()
            &&& j == r.1 || r.0 is None
            &&& parse_statements(ts, g, i).0 == here + parse_statements(ts, g, j + 1).0
            &&& parse_statements(ts, g, i).1 == r.2 + parse_statements(ts, g, j + 1).1
        }),
{
    let r = parse_stmt(ts, g, i);
    lemma_parse_stmt_bounds(ts, g, i);
    lemma_statement_boundary(ts, r.1);
    let j = match r.0 {
        Some(_) => r.1,
        None => statement_boundary(ts, r.1),
    };
    let here = match r.0 {
        Some(s) => seq![s],
        None => Seq::empty(),
    };
    if j >= ts.len() {
        assert(at(ts, j + 1).kind == TokenKind::Eof);
        assert(here + Seq::<StmtView>::empty() =~= here);
        assert(r.2 + Seq::<Seq<u8>>::empty() =~= r.2);
    }
}

} // verus!
