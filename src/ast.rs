use vstd::prelude::*;
use crate::token::{Token, TokenView};

verus! {

/// A name reference; `value` is the name's text.
#[derive(Clone, Debug, PartialEq, Eq)]
pub struct Identifier {
    pub token: Token,
    pub value: Vec<u8>,
}

/// A decimal integer.
#[derive(Clone, Debug, PartialEq, Eq)]
pub struct IntegerLiteral {
    pub token: Token,
    pub value: i64,
}

/// A unary operator (its token) applied to an operand.
#[derive(Debug, PartialEq, Eq)]
pub struct PrefixExpression {
    pub token: Token,
    pub right: Box<Expression>,
}

/// A binary operator (its token) applied to two operands.
#[derive(Debug, PartialEq, Eq)]
pub struct InfixExpression {
    pub token: Token,
    pub left: Box<Expression>,
    pub right: Box<Expression>,
}

/// The expression shapes of the language.
#[derive(Debug, PartialEq, Eq)]
pub enum Expression {
    Identifier(Identifier),
    IntegerLiteral(IntegerLiteral),
    Prefix(PrefixExpression),
    Infix(InfixExpression),
}

/// `let <name> = <value>;`
#[derive(Debug, PartialEq, Eq)]
pub struct LetStatement {
    pub token: Token,
    pub name: Identifier,
    pub value: Expression,
}

/// `return <value>;`, the value being optional.
#[derive(Debug, PartialEq, Eq)]
pub struct ReturnStatement {
    pub token: Token,
    pub return_value: Option<Expression>,
}

/// An expression in statement position; `token` is its first token.
#[derive(Debug, PartialEq, Eq)]
pub struct ExpressionStatement {
    pub token: Token,
    pub expression: Expression,
}

/// The statement shapes of the language.
#[derive(Debug, PartialEq, Eq)]
pub enum Statement {
    Let(LetStatement),
    Return(ReturnStatement),
    Expression(ExpressionStatement),
}

/// The root of a syntax tree: its statements in source order.
#[derive(Debug, PartialEq, Eq)]
pub struct Program {
    pub statements: Vec<Statement>,
}

pub ghost struct IdentifierView {
    pub token: TokenView,
    pub value: Seq<u8>,
}

/// The mathematical value of an expression tree.
pub ghost enum ExprView {
    Identifier(IdentifierView),
    Integer(TokenView, int),
    Prefix(TokenView, Box<ExprView>),
    Infix(TokenView, Box<ExprView>, Box<ExprView>),
}

/// The mathematical value of a statement.
pub ghost enum StmtView {
    Let(TokenView, IdentifierView, ExprView),
    Return(TokenView, Option<ExprView>),
    Expression(TokenView, ExprView),
}

pub open spec fn space() -> Seq<u8> {
    seq![0x20u8]
}

pub open spec fn semicolon() -> Seq<u8> {
    seq![0x3bu8]
}

/// ` = `
pub open spec fn spaced_assign() -> Seq<u8> {
    seq![0x20u8, 0x3du8, 0x20u8]
}

impl ExprView {
    /// The token that the expression is anchored at: the name, the digits or the operator.
    pub open spec fn token(self) -> TokenView {
        match self {
            ExprView::Identifier(id) => id.token,
            ExprView::Integer(t, _) => t,
            ExprView::Prefix(t, _) => t,
            ExprView::Infix(t, _, _) => t,
        }
    }

    /// The first token of the expression's text.
    pub open spec fn first_token(self) -> TokenView
        decreases self,
    {
        match self {
            ExprView::Infix(_, left, _) => left.first_token(),
            _ => self.token(),
        }
    }

    /// The canonical text of the expression.
    pub open spec fn text(self) -> Seq<u8>
        decreases self,
    {
        match self {
            ExprView::Identifier(id) => id.value,
            ExprView::Integer(t, _) => t.literal,
            ExprView::Prefix(t, right) => t.literal + right.text(),
            ExprView::Infix(t, left, right) => left.text() + space() + t.literal + space()
                + right.text(),
        }
    }
}

impl StmtView {
    pub open spec fn token(self) -> TokenView {
        match self {
            StmtView::Let(t, _, _) => t,
            StmtView::Return(t, _) => t,
            StmtView::Expression(t, _) => t,
        }
    }

    /// The canonical text of the statement.
    pub open spec fn text(self) -> Seq<u8> {
        match self {
            StmtView::Let(t, name, value) => t.literal + space() + name.value + spaced_assign()
                + value.text() + semicolon(),
            StmtView::Return(t, None) => t.literal + semicolon(),
            StmtView::Return(t, Some(value)) => t.literal + space() + value.text() + semicolon(),
            StmtView::Expression(_, e) => e.text(),
        }
    }

    /// The statement's text as it stands in a program: a bare expression is closed
    /// by a semicolon so that it cannot run into the next statement.
    pub open spec fn terminated_text(self) -> Seq<u8> {
        match self {
            StmtView::Expression(_, e) => e.text() + semicolon(),
            _ => self.text(),
        }
    }
}

/// The canonical text of a sequence of statements.
pub open spec fn statements_text(stmts: Seq<StmtView>) -> Seq<u8>
    decreases stmts.len(),
{
    if stmts.len() == 0 {
        Seq::empty()
    } else {
        statements_text(stmts.drop_last()) + stmts.last().terminated_text()
    }
}

impl View for Identifier {
    type V = IdentifierView;

    open spec fn view(&self) -> IdentifierView {
        IdentifierView { token: self.token@, value: self.value@ }
    }
}

impl Expression {
    pub open spec fn spec_view(&self) -> ExprView
        decreases self,
    {
        match self {
            Expression::Identifier(id) => ExprView::Identifier(id@),
            Expression::IntegerLiteral(lit) => ExprView::Integer(lit.token@, lit.value as int),
            Expression::Prefix(p) => ExprView::Prefix(p.token@, Box::new((*p.right).spec_view())),
            Expression::Infix(x) => ExprView::Infix(
                x.token@,
                Box::new((*x.left).spec_view()),
                Box::new((*x.right).spec_view()),
            ),
        }
    }
}

impl View for Expression {
    type V = ExprView;

    open spec fn view(&self) -> ExprView {
        self.spec_view()
    }
}

impl View for Statement {
    type V = StmtView;

    open spec fn view(&self) -> StmtView {
        match self {
            Statement::Let(s) => StmtView::Let(s.token@, s.name@, s.value@),
            Statement::Return(s) => StmtView::Return(
                s.token@,
                match s.return_value {
                    Some(v) => Some(v@),
                    None => None,
                },
            ),
            Statement::Expression(s) => StmtView::Expression(s.token@, s.expression@),
        }
    }
}

impl View for Program {
    type V = Seq<StmtView>;

    open spec fn view(&self) -> Seq<StmtView> {
        self.statements@.map_values(|s: Statement| s@)
    }
}

fn space_bytes() -> (r: Vec<u8>)
    ensures
        r@ == space(),
{
    let r = vec![0x20u8];
    assert(r@ =~= space());
    r
}

fn semicolon_bytes() -> (r: Vec<u8>)
    ensures
        r@ == semicolon(),
{
    let r = vec![0x3bu8];
    assert(r@ =~= semicolon());
    r
}

impl Identifier {
    pub fn token_literal(&self) -> (r: Vec<u8>)
        ensures
            r@ == self.token.literal@,
    {
        self.token.literal.clone()
    }

    pub fn string(&self) -> (r: Vec<u8>)
        ensures
            r@ == self.value@,
    {
        self.value.clone()
    }
}

impl IntegerLiteral {
    pub fn token_literal(&self) -> (r: Vec<u8>)
        ensures
            r@ == self.token.literal@,
    {
        self.token.literal.clone()
    }
}

impl Expression {
    pub fn token_literal(&self) -> (r: Vec<u8>)
        ensures
            r@ == self@.token().literal,
    {
        match self {
            Expression::Identifier(id) => id.token_literal(),
            Expression::IntegerLiteral(lit) => lit.token_literal(),
            Expression::Prefix(p) => p.token.literal.clone(),
            Expression::Infix(x) => x.token.literal.clone(),
        }
    }

    /// Renders the expression canonically; operators of a binary expression stand
    /// between single spaces.
    pub fn string(&self) -> (r: Vec<u8>)
        ensures
            r@ == self@.text(),
        decreases self,
    {
        match self {
            Expression::Identifier(id) => id.string(),
            Expression::IntegerLiteral(lit) => lit.token.literal.clone(),
            Expression::Prefix(p) => {
                let mut out = p.token.literal.clone();
                let mut right = p.right.string();
                out.append(&mut right);
                out
            },
            Expression::Infix(x) => {
                let mut out = x.left.string();
                out.append(&mut space_bytes());
                out.append(&mut x.token.literal.clone());
                out.append(&mut space_bytes());
                out.append(&mut x.right.string());
                out
            },
        }
    }
}

impl Expression {
    /// An independent deep copy.
    pub fn duplicate(&self) -> (r: Expression)
        ensures
            r@ == self@,
        decreases self,
    {
        match self {
            Expression::Identifier(id) => Expression::Identifier(
                Identifier { token: id.token.duplicate(), value: id.value.clone() },
            ),
            Expression::IntegerLiteral(lit) => Expression::IntegerLiteral(
                IntegerLiteral { token: lit.token.duplicate(), value: lit.value },
            ),
            Expression::Prefix(p) => Expression::Prefix(
                PrefixExpression { token: p.token.duplicate(), right: Box::new(p.right.duplicate()) },
            ),
            Expression::Infix(x) => Expression::Infix(
                InfixExpression {
                    token: x.token.duplicate(),
                    left: Box::new(x.left.duplicate()),
                    right: Box::new(x.right.duplicate()),
                },
            ),
        }
    }
}

impl Statement {
    /// An independent deep copy.
    pub fn duplicate(&self) -> (r: Statement)
        ensures
            r@ == self@,
    {
        match self {
            Statement::Let(s) => Statement::Let(
                LetStatement {
                    token: s.token.duplicate(),
                    name: Identifier { token: s.name.token.duplicate(), value: s.name.value.clone() },
                    value: s.value.duplicate(),
                },
            ),
            Statement::Return(s) => Statement::Return(
                ReturnStatement {
                    token: s.token.duplicate(),
                    return_value: match &s.return_value {
                        Some(v) => Some(v.duplicate()),
                        None => None,
                    },
                },
            ),
            Statement::Expression(s) => Statement::Expression(
                ExpressionStatement { token: s.token.duplicate(), expression: s.expression.duplicate() },
            ),
        }
    }
}

impl Program {
    /// An independent deep copy.
    pub fn duplicate(&self) -> (r: Program)
        ensures
            r@ == self@,
    {
        let mut statements: Vec<Statement> = Vec::new();
        let mut i: usize = 0;
        while i < self.statements.len()
            invariant
                i <= self.statements@.len(),
                statements@.len() == i,
                forall|k: int| 0 <= k < i ==> (#[trigger] statements@[k])@ == self.statements@[k]@,
            decreases self.statements@.len() - i,
        {
            statements.push(self.statements[i].duplicate());
            i = i + 1;
        }
        let r = Program { statements };
        assert(r@ =~= self@);
        r
    }
}

impl LetStatement {
    pub fn token_literal(&self) -> (r: Vec<u8>)
        ensures
            r@ == self.token.literal@,
    {
        self.token.literal.clone()
    }

    pub fn string(&self) -> (r: Vec<u8>)
        ensures
            r@ == Statement::Let(*self)@.text(),
    {
        let mut out = self.token.literal.clone();
        out.append(&mut space_bytes());
        out.append(&mut self.name.string());
        let mut assign = vec![0x20u8, 0x3du8, 0x20u8];
        assert(assign@ =~= spaced_assign());
        out.append(&mut assign);
        out.append(&mut self.value.string());
        out.append(&mut semicolon_bytes());
        out
    }
}

impl ReturnStatement {
    pub fn token_literal(&self) -> (r: Vec<u8>)
        ensures
            r@ == self.token.literal@,
    {
        self.token.literal.clone()
    }

    pub fn string(&self) -> (r: Vec<u8>)
        ensures
            r@ == Statement::Return(*self)@.text(),
    {
        let mut out = self.token.literal.clone();
        match &self.return_value {
            Some(v) => {
                out.append(&mut space_bytes());
                out.append(&mut v.string());
            },
            None => {},
        }
        out.append(&mut semicolon_bytes());
        out
    }
}

impl ExpressionStatement {
    pub fn token_literal(&self) -> (r: Vec<u8>)
        ensures
            r@ == self.token.literal@,
    {
        self.token.literal.clone()
    }

    pub fn string(&self) -> (r: Vec<u8>)
        ensures
            r@ == self.expression@.text(),
    {
        self.expression.string()
    }
}

impl Statement {
    pub fn token_literal(&self) -> (r: Vec<u8>)
        ensures
            r@ == self@.token().literal,
    {
        match self {
            Statement::Let(s) => s.token_literal(),
            Statement::Return(s) => s.token_literal(),
            Statement::Expression(s) => s.token_literal(),
        }
    }

    pub fn string(&self) -> (r: Vec<u8>)
        ensures
            r@ == self@.text(),
    {
        match self {
            Statement::Let(s) => s.string(),
            Statement::Return(s) => s.string(),
            Statement::Expression(s) => s.string(),
        }
    }
}

impl Program {
    /// The literal of the first statement's token; empty for an empty program.
    pub fn token_literal(&self) -> (r: Vec<u8>)
        ensures
            self@.len() > 0 ==> r@ == self@[0].token().literal,
            self@.len() == 0 ==> r@ == Seq::<u8>::empty(),
    {
        if self.statements.len() > 0 {
            self.statements[0].token_literal()
        } else {
            Vec::new()
        }
    }

    /// Renders every statement in order, each closed so that the text parses back
    /// into the same statements.
    pub fn string(&self) -> (r: Vec<u8>)
        ensures
            r@ == statements_text(self@),
    {
        let mut out: Vec<u8> = Vec::new();
        let mut i: usize = 0;
        while i < self.statements.len()
            invariant
                i <= self.statements@.len(),
                out@ == statements_text(self@.subrange(0, i as int)),
            decreases self.statements@.len() - i,
        {
            let s = &self.statements[i];
            out.append(&mut s.string());
            match s {
                Statement::Expression(_) => out.append(&mut semicolon_bytes()),
                _ => {},
            }
            proof {
                let next = self@.subrange(0, i + 1);
                assert(next.drop_last() =~= self@.subrange(0, i as int));
            }
            i = i + 1;
        }
        assert(self@.subrange(0, i as int) =~= self@);
        out
    }
}

} // verus!
