use vstd::prelude::*;
use crate::ast::{
    semicolon, space, spaced_assign, statements_text, ExprView, IdentifierView, StmtView,
};
use crate::grammar::{
    infix_of, integer_value, lemma_parse_expr_bounds, lemma_parse_infix_bounds,
    lemma_parse_statements_step, parse_expr, parse_expression_stmt, parse_infix, parse_let,
    parse_return, parse_statements, parse_stmt, precedence_of, prefix_of, standard_tables,
    statement_boundary, HandlerTables, InfixHandler, PrefixHandler, LOWEST, PREFIX,
};
use crate::parser::parse_text;
use crate::lexer::{
    byte_at, digits_end, is_digit_byte, is_letter_byte, is_two_byte_operator, is_whitespace_byte,
    lemma_digits_end, lemma_letters_end, lemma_scan_step, lemma_scanner_reaches_end, letters_end, position_from, scan_end, scan_token,
    single_byte_kind, skip_whitespace_from, token_from, tokens_from, tokens_remaining,
};
use crate::token::{at, eof_token, keyword_kind, word_kind, TokenKind, TokenView};

verus! {

/// The text of a token whose text its kind fixes.
pub open spec fn fixed_text(kind: TokenKind) -> Option<Seq<u8>> {
    match kind {
        TokenKind::Assign => Some(seq![0x3du8]),
        TokenKind::Plus => Some(seq![0x2bu8]),
        TokenKind::Minus => Some(seq![0x2du8]),
        TokenKind::Bang => Some(seq![0x21u8]),
        TokenKind::Asterisk => Some(seq![0x2au8]),
        TokenKind::Slash => Some(seq![0x2fu8]),
        TokenKind::Lt => Some(seq![0x3cu8]),
        TokenKind::Gt => Some(seq![0x3eu8]),
        TokenKind::Comma => Some(seq![0x2cu8]),
        TokenKind::Semicolon => Some(seq![0x3bu8]),
        TokenKind::LParen => Some(seq![0x28u8]),
        TokenKind::RParen => Some(seq![0x29u8]),
        TokenKind::LBrace => Some(seq![0x7bu8]),
        TokenKind::RBrace => Some(seq![0x7du8]),
        TokenKind::Eq => Some(seq![0x3du8, 0x3du8]),
        TokenKind::NotEq => Some(seq![0x21u8, 0x3du8]),
        TokenKind::Function => Some(seq![102u8, 110u8]),
        TokenKind::Let => Some(seq![108u8, 101u8, 116u8]),
        TokenKind::True => Some(seq![116u8, 114u8, 117u8, 101u8]),
        TokenKind::False => Some(seq![102u8, 97u8, 108u8, 115u8, 101u8]),
        TokenKind::If => Some(seq![105u8, 102u8]),
        TokenKind::Else => Some(seq![101u8, 108u8, 115u8, 101u8]),
        TokenKind::Return => Some(seq![114u8, 101u8, 116u8, 117u8, 114u8, 110u8]),
        _ => None,
    }
}

/// A token as the scanner makes it: its text matches its kind.
pub open spec fn well_formed_token(t: TokenView) -> bool {
    match t.kind {
        TokenKind::Ident => {
            &&& t.literal.len() > 0
            &&& forall|i: int| 0 <= i < t.literal.len() ==> is_letter_byte(#[trigger] t.literal[i])
            &&& keyword_kind(t.literal) is None
        },
        TokenKind::Int => {
            &&& t.literal.len() > 0
            &&& forall|i: int| 0 <= i < t.literal.len() ==> is_digit_byte(#[trigger] t.literal[i])
        },
        TokenKind::Illegal => t.literal.len() == 1,
        TokenKind::Eof => t.literal.len() == 0,
        _ => fixed_text(t.kind) == Some(t.literal),
    }
}

/// Every token of a sequence is well formed.
pub open spec fn all_well_formed(ts: Seq<TokenView>) -> bool {
    forall|k: int| 0 <= k < ts.len() ==> well_formed_token(#[trigger] ts[k])
}

proof fn lemma_letters_run(input: Seq<u8>, s: int, k: int)
    requires
        0 <= s <= k < letters_end(input, s),
        s <= input.len(),
    ensures
        k < input.len(),
        is_letter_byte(input[k]),
    decreases k - s,
{
    if k > s {
        lemma_letters_run(input, s + 1, k);
    }
}

proof fn lemma_digits_run(input: Seq<u8>, s: int, k: int)
    requires
        0 <= s <= k < digits_end(input, s),
        s <= input.len(),
    ensures
        k < input.len(),
        is_digit_byte(input[k]),
    decreases k - s,
{
    if k > s {
        lemma_digits_run(input, s + 1, k);
    }
}

proof fn lemma_letters_end_at(input: Seq<u8>, s: int, q: int)
    requires
        0 <= s <= q <= input.len(),
        forall|k: int| s <= k < q ==> is_letter_byte(#[trigger] input[k]),
        !is_letter_byte(byte_at(input, q)),
    ensures
        letters_end(input, s) == q,
    decreases q - s,
{
    if s < q {
        lemma_letters_end_at(input, s + 1, q);
    }
}

proof fn lemma_digits_end_at(input: Seq<u8>, s: int, q: int)
    requires
        0 <= s <= q <= input.len(),
        forall|k: int| s <= k < q ==> is_digit_byte(#[trigger] input[k]),
        !is_digit_byte(byte_at(input, q)),
    ensures
        digits_end(input, s) == q,
    decreases q - s,
{
    if s < q {
        lemma_digits_end_at(input, s + 1, q);
    }
}

/// The scanner makes well-formed tokens only.
pub proof fn lemma_scan_well_formed(input: Seq<u8>, pos: int)
    requires
        0 <= pos <= input.len(),
    ensures
        well_formed_token(scan_token(input, pos)),
{
    lemma_scan_step(input, pos);
    let s = skip_whitespace_from(input, pos);
    let t = scan_token(input, pos);
    if s < input.len() {
        lemma_letters_end(input, s);
        lemma_digits_end(input, s);
        if is_two_byte_operator(input, s) {
            assert(t.literal =~= seq![input[s], 0x3du8]);
        } else if is_letter_byte(input[s]) {
            let w = input.subrange(s, letters_end(input, s));
            assert forall|i: int| 0 <= i < w.len() implies is_letter_byte(#[trigger] w[i]) by {
                lemma_letters_run(input, s, s + i);
            }
        } else if is_digit_byte(input[s]) {
            let w = input.subrange(s, digits_end(input, s));
            assert forall|i: int| 0 <= i < w.len() implies is_digit_byte(#[trigger] w[i]) by {
                lemma_digits_run(input, s, s + i);
            }
        } else {
            assert(t.literal =~= seq![input[s]]);
        }
    }
}

/// Every token that scanning yields is well formed.
pub proof fn lemma_tokens_well_formed(input: Seq<u8>, start: int)
    requires
        0 <= start <= input.len(),
    ensures
        all_well_formed(tokens_from(input, start)),
{
    assert forall|k: int| 0 <= k < tokens_from(input, start).len() implies well_formed_token(
        #[trigger] tokens_from(input, start)[k],
    ) by {
        lemma_scanner_reaches_end(input, start, k as nat);
        lemma_scan_well_formed(input, position_from(input, start, k as nat));
    }
}

/// Scanning `text` from `p` yields the tokens `toks` and leaves the cursor at `q`.
#[verifier::opaque]
pub open spec fn scans_as(text: Seq<u8>, p: int, toks: Seq<TokenView>, q: int) -> bool {
    &&& forall|k: int| 0 <= k < toks.len() ==> token_from(text, p, k as nat) == #[trigger] toks[k]
    &&& position_from(text, p, toks.len()) == q
}

/// What may follow a token without changing how it is scanned.
pub open spec fn separates(kind: TokenKind, c: u8) -> bool {
    match kind {
        TokenKind::Ident | TokenKind::Function | TokenKind::Let | TokenKind::True
        | TokenKind::False | TokenKind::If | TokenKind::Else | TokenKind::Return => !is_letter_byte(c),
        TokenKind::Int => !is_digit_byte(c),
        TokenKind::Assign | TokenKind::Bang => c != 0x3d,
        _ => true,
    }
}

proof fn lemma_position_shift(text: Seq<u8>, p: int, m: nat, k: nat)
    ensures
        position_from(text, p, m + k) == position_from(text, position_from(text, p, m), k),
    decreases k,
{
    if k > 0 {
        lemma_position_shift(text, p, m, (k - 1) as nat);
        assert(m + k - 1 == m + (k - 1) as nat);
    }
}

proof fn lemma_scans_concat(
    text: Seq<u8>,
    p: int,
    a: Seq<TokenView>,
    q: int,
    b: Seq<TokenView>,
    r: int,
)
    requires
        scans_as(text, p, a, q),
        scans_as(text, q, b, r),
    ensures
        scans_as(text, p, a + b, r),
{
    reveal(scans_as);
    assert forall|k: int| 0 <= k < (a + b).len() implies token_from(text, p, k as nat) == #[trigger] (
    a + b)[k] by {
        if k >= a.len() {
            lemma_position_shift(text, p, a.len(), (k - a.len()) as nat);
            assert(b[k - a.len()] == token_from(text, q, (k - a.len()) as nat));
        }
    }
    lemma_position_shift(text, p, a.len(), b.len());
}

proof fn lemma_scans_after_space(text: Seq<u8>, p: int, toks: Seq<TokenView>, q: int)
    requires
        0 <= p < text.len(),
        is_whitespace_byte(text[p]),
        toks.len() > 0,
        scans_as(text, p + 1, toks, q),
    ensures
        scans_as(text, p, toks, q),
{
    reveal(scans_as);
    assert(scan_token(text, p) == scan_token(text, p + 1));
    assert(scan_end(text, p) == scan_end(text, p + 1));
    assert(position_from(text, p, 0) == p);
    assert(position_from(text, p + 1, 0) == p + 1);
    assert(position_from(text, p, 1) == position_from(text, p + 1, 1));
    assert forall|k: int| 0 <= k < toks.len() implies token_from(text, p, k as nat)
        == #[trigger] toks[k] by {
        if k > 0 {
            lemma_position_shift(text, p, 1, (k - 1) as nat);
            lemma_position_shift(text, p + 1, 1, (k - 1) as nat);
        }
    }
    lemma_position_shift(text, p, 1, (toks.len() - 1) as nat);
    lemma_position_shift(text, p + 1, 1, (toks.len() - 1) as nat);
}

/// A well-formed token standing in a text, followed by a byte that separates it,
/// scans as itself.
#[verifier::rlimit(40)]
proof fn lemma_scan_one(text: Seq<u8>, p: int, t: TokenView)
    requires
        well_formed_token(t),
        t.kind != TokenKind::Eof,
        t.kind != TokenKind::Illegal,
        0 <= p,
        p + t.literal.len() <= text.len(),
        text.subrange(p, p + t.literal.len()) == t.literal,
        separates(t.kind, byte_at(text, p + t.literal.len())),
    ensures
        scans_as(text, p, seq![t], p + t.literal.len()),
{
    reveal(scans_as);
    let n = t.literal.len() as int;
    let q = p + n;
    assert(forall|k: int| 0 <= k < n ==> text[p + k] == #[trigger] t.literal[k]) by {
        assert forall|k: int| 0 <= k < n implies text[p + k] == #[trigger] t.literal[k] by {
            assert(text.subrange(p, q)[k] == text[p + k]);
        }
    }
    assert(n > 0);
    assert(text[p + 0] == t.literal[0]);
    let c = text[p];
    if t.kind == TokenKind::Ident || t.kind == TokenKind::Function || t.kind == TokenKind::Let
        || t.kind == TokenKind::True || t.kind == TokenKind::False || t.kind == TokenKind::If
        || t.kind == TokenKind::Else || t.kind == TokenKind::Return {
        assert forall|k: int| 0 <= k < n implies is_letter_byte(#[trigger] t.literal[k]) by {
            if t.kind != TokenKind::Ident {
                assert(t.literal == fixed_text(t.kind)->0);
            }
        }
        assert(!is_whitespace_byte(c));
        assert(skip_whitespace_from(text, p) == p);
        assert forall|k: int| p <= k < q implies is_letter_byte(#[trigger] text[k]) by {
            assert(text[p + (k - p)] == t.literal[k - p]);
        }
        lemma_letters_end_at(text, p, q);
        assert(text.subrange(p, q) == t.literal);
        assert(word_kind(t.literal) == t.kind);
        assert(!is_two_byte_operator(text, p));
    } else if t.kind == TokenKind::Int {
        assert(!is_whitespace_byte(c));
        assert(skip_whitespace_from(text, p) == p);
        assert forall|k: int| p <= k < q implies is_digit_byte(#[trigger] text[k]) by {
            assert(text[p + (k - p)] == t.literal[k - p]);
        }
        lemma_digits_end_at(text, p, q);
        assert(!is_two_byte_operator(text, p));
    } else if t.kind == TokenKind::Eq || t.kind == TokenKind::NotEq {
        assert(text[p + 1] == t.literal[1]);
        assert(!is_whitespace_byte(c));
        assert(skip_whitespace_from(text, p) == p);
        assert(is_two_byte_operator(text, p));
    } else {
        assert(n == 1);
        assert(!is_whitespace_byte(c));
        assert(skip_whitespace_from(text, p) == p);
        assert(!is_two_byte_operator(text, p));
        assert(!is_letter_byte(c) && !is_digit_byte(c));
        assert(single_byte_kind(c) == t.kind);
    }
    assert(text.subrange(p, q) =~= t.literal);
    assert(position_from(text, p, 0) == p);
    assert(scan_token(text, p) == t);
    assert(position_from(text, p, 1) == q);
}

/// A binary operator of the language's own tables.
pub open spec fn is_binary_kind(kind: TokenKind) -> bool {
    kind == TokenKind::Plus || kind == TokenKind::Minus || kind == TokenKind::Asterisk || kind
        == TokenKind::Slash || kind == TokenKind::Lt || kind == TokenKind::Gt || kind
        == TokenKind::Eq || kind == TokenKind::NotEq
}

/// The tokens of an expression, in source order.
pub open spec fn expr_tokens(e: ExprView) -> Seq<TokenView>
    decreases e,
{
    match e {
        ExprView::Identifier(id) => seq![id.token],
        ExprView::Integer(t, _) => seq![t],
        ExprView::Prefix(t, right) => seq![t] + expr_tokens(*right),
        ExprView::Infix(t, left, right) => expr_tokens(*left) + seq![t] + expr_tokens(*right),
    }
}

/// An expression as the language's own tables build it from scanned tokens.
pub open spec fn expr_well_formed(e: ExprView) -> bool
    decreases e,
{
    match e {
        ExprView::Identifier(id) => id.token.kind == TokenKind::Ident && well_formed_token(id.token)
            && id.value == id.token.literal,
        ExprView::Integer(t, v) => t.kind == TokenKind::Int && well_formed_token(t)
            && integer_value(t.literal) == Some(v),
        ExprView::Prefix(t, right) => (t.kind == TokenKind::Bang || t.kind == TokenKind::Minus)
            && well_formed_token(t) && expr_well_formed(*right),
        ExprView::Infix(t, left, right) => is_binary_kind(t.kind) && well_formed_token(t)
            && expr_well_formed(*left) && expr_well_formed(*right),
    }
}

/// A byte that may follow an expression's text: a space, a semicolon, or the end.
pub open spec fn ends_expression(c: u8) -> bool {
    c == 0x20 || c == 0x3b || c == 0
}

proof fn lemma_expr_facts(e: ExprView)
    requires
        expr_well_formed(e),
    ensures
        e.text().len() > 0,
        ({
            let c = e.text()[0];
            is_letter_byte(c) || is_digit_byte(c) || c == 0x21 || c == 0x2d
        }),
        expr_tokens(e).len() > 0,
        expr_tokens(e)[0] == e.first_token(),
        forall|k: int|
            0 <= k < expr_tokens(e).len() ==> (#[trigger] expr_tokens(e)[k]).kind != TokenKind::Eof,
    decreases e,
{
    match e {
        ExprView::Identifier(id) => {},
        ExprView::Integer(t, _) => {},
        ExprView::Prefix(t, right) => {
            lemma_expr_facts(*right);
            assert(t.literal == seq![0x21u8] || t.literal == seq![0x2du8]);
            assert(e.text()[0] == t.literal[0]);
            assert forall|k: int| 0 <= k < expr_tokens(e).len() implies (#[trigger] expr_tokens(
                e,
            )[k]).kind != TokenKind::Eof by {
                if k > 0 {
                    assert(expr_tokens(e)[k] == expr_tokens(*right)[k - 1]);
                }
            }
        },
        ExprView::Infix(t, left, right) => {
            lemma_expr_facts(*left);
            lemma_expr_facts(*right);
            assert(e.text()[0] == left.text()[0]);
            assert(expr_tokens(e)[0] == expr_tokens(*left)[0]);
            let lt = expr_tokens(*left);
            assert forall|k: int| 0 <= k < expr_tokens(e).len() implies (#[trigger] expr_tokens(
                e,
            )[k]).kind != TokenKind::Eof by {
                if k < lt.len() {
                    assert(expr_tokens(e)[k] == lt[k]);
                } else if k > lt.len() {
                    assert(expr_tokens(e)[k] == expr_tokens(*right)[k - lt.len() - 1]);
                }
            }
        },
    }
}

proof fn lemma_split(text: Seq<u8>, p: int, a: Seq<u8>, b: Seq<u8>)
    requires
        0 <= p,
        p + a.len() + b.len() <= text.len(),
        text.subrange(p, p + a.len() + b.len()) == a + b,
    ensures
        text.subrange(p, p + a.len()) == a,
        text.subrange(p + a.len(), p + a.len() + b.len()) == b,
        b.len() > 0 ==> text[p + a.len()] == b[0],
{
    assert forall|k: int| 0 <= k < a.len() implies text.subrange(p, p + a.len())[k] == a[k] by {
        assert(text.subrange(p, p + a.len() + b.len())[k] == (a + b)[k]);
    }
    assert forall|k: int| 0 <= k < b.len() implies text.subrange(
        p + a.len(),
        p + a.len() + b.len(),
    )[k] == b[k] by {
        assert(text.subrange(p, p + a.len() + b.len())[a.len() + k] == (a + b)[a.len() + k]);
        assert(text.subrange(p, p + a.len() + b.len())[a.len() + k] == text[p + a.len() + k]);
        assert((a + b)[a.len() + k] == b[k]);
    }
    assert(text.subrange(p, p + a.len()) =~= a);
    assert(text.subrange(p + a.len(), p + a.len() + b.len()) =~= b);
    if b.len() > 0 {
        assert(text.subrange(p + a.len(), p + a.len() + b.len())[0] == b[0]);
    }
}

/// The text of a well-formed expression, followed by a space, a semicolon or the end,
/// scans back into the expression's tokens.
proof fn lemma_scan_expr(text: Seq<u8>, p: int, e: ExprView)
    requires
        expr_well_formed(e),
        0 <= p,
        p + e.text().len() <= text.len(),
        text.subrange(p, p + e.text().len()) == e.text(),
        ends_expression(byte_at(text, p + e.text().len())),
    ensures
        scans_as(text, p, expr_tokens(e), p + e.text().len()),
    decreases e,
{
    let q = p + e.text().len();
    match e {
        ExprView::Identifier(id) => {
            lemma_scan_one(text, p, id.token);
        },
        ExprView::Integer(t, _) => {
            lemma_scan_one(text, p, t);
        },
        ExprView::Prefix(t, right) => {
            lemma_expr_facts(*right);
            lemma_split(text, p, t.literal, right.text());
            assert(t.literal.len() == 1);
            lemma_scan_one(text, p, t);
            lemma_scan_expr(text, p + 1, *right);
            lemma_scans_concat(text, p, seq![t], p + 1, expr_tokens(*right), q);
        },
        ExprView::Infix(t, left, right) => {
            let lt = left.text();
            let x3 = lt + space() + t.literal + space();
            let x2 = lt + space() + t.literal;
            let x1 = lt + space();
            lemma_expr_facts(*right);
            lemma_split(text, p, x3, right.text());
            lemma_split(text, p, x2, space());
            lemma_split(text, p, x1, t.literal);
            lemma_split(text, p, lt, space());
            let p1 = p + lt.len();
            let p2 = p1 + 1;
            let p3 = p2 + t.literal.len();
            lemma_scan_expr(text, p, *left);
            assert(t.literal.len() > 0);
            lemma_scan_one(text, p2, t);
            lemma_scans_after_space(text, p1, seq![t], p3);
            lemma_scan_expr(text, p3 + 1, *right);
            lemma_scans_after_space(text, p3, expr_tokens(*right), q);
            lemma_scans_concat(text, p, expr_tokens(*left), p1, seq![t], p3);
            lemma_scans_concat(text, p, expr_tokens(*left) + seq![t], p3, expr_tokens(*right), q);
        },
    }
}

pub open spec fn assign_token() -> TokenView {
    TokenView { kind: TokenKind::Assign, literal: seq![0x3du8] }
}

pub open spec fn semicolon_token() -> TokenView {
    TokenView { kind: TokenKind::Semicolon, literal: seq![0x3bu8] }
}

/// The tokens of a statement's text, in order.
pub open spec fn stmt_tokens(s: StmtView) -> Seq<TokenView> {
    match s {
        StmtView::Let(t, name, value) => seq![t, name.token, assign_token()] + expr_tokens(value)
            + seq![semicolon_token()],
        StmtView::Return(t, None) => seq![t, semicolon_token()],
        StmtView::Return(t, Some(value)) => seq![t] + expr_tokens(value) + seq![semicolon_token()],
        StmtView::Expression(_, e) => expr_tokens(e),
    }
}

/// A statement as the language's own tables build it from scanned tokens.
pub open spec fn stmt_well_formed(s: StmtView) -> bool {
    match s {
        StmtView::Let(t, name, value) => t.kind == TokenKind::Let && well_formed_token(t)
            && name.token.kind == TokenKind::Ident && well_formed_token(name.token) && name.value
            == name.token.literal && expr_well_formed(value),
        StmtView::Return(t, None) => t.kind == TokenKind::Return && well_formed_token(t),
        StmtView::Return(t, Some(value)) => t.kind == TokenKind::Return && well_formed_token(t)
            && expr_well_formed(value),
        StmtView::Expression(t, e) => expr_well_formed(e) && t == e.first_token(),
    }
}

proof fn lemma_tokens_of_scan(text: Seq<u8>, toks: Seq<TokenView>)
    requires
        scans_as(text, 0, toks, text.len() as int),
        forall|k: int| 0 <= k < toks.len() ==> (#[trigger] toks[k]).kind != TokenKind::Eof,
    ensures
        tokens_from(text, 0) == toks.push(eof_token()),
{
    reveal(scans_as);
    let n = toks.len();
    let c = tokens_remaining(text, 0);
    lemma_scanner_reaches_end(text, 0, n);
    assert(skip_whitespace_from(text, text.len() as int) == text.len());
    assert(token_from(text, 0, n).kind == TokenKind::Eof);
    if c < n {
        lemma_scanner_reaches_end(text, 0, c);
        assert(toks[c as int].kind != TokenKind::Eof);
    }
    assert(c == n);
    assert(tokens_from(text, 0) =~= toks.push(eof_token()));
}

#[verifier::rlimit(40)]
proof fn lemma_scan_let(text: Seq<u8>, p: int, t: TokenView, name: IdentifierView, value: ExprView)
    requires
        stmt_well_formed(StmtView::Let(t, name, value)),
        0 <= p,
        p + StmtView::Let(t, name, value).text().len() <= text.len(),
        text.subrange(p, p + StmtView::Let(t, name, value).text().len()) == StmtView::Let(
            t,
            name,
            value,
        ).text(),
    ensures
        ({
            let s = StmtView::Let(t, name, value);
            scans_as(text, p, stmt_tokens(s), p + s.text().len())
        }),
{
    let s = StmtView::Let(t, name, value);
    let end = p + s.text().len();
    let semi = semicolon_token();
    let v = value.text();
    let n = name.value.len() as int;
    let m = v.len() as int;
    let x4 = t.literal + space() + name.value + spaced_assign();
    let x3 = t.literal + space() + name.value;
    let x2 = t.literal + space();
    lemma_expr_facts(value);
    lemma_split(text, p, x4 + v, semicolon());
    lemma_split(text, p, x4, v);
    lemma_split(text, p, x3, spaced_assign());
    lemma_split(text, p, x2, name.value);
    lemma_split(text, p, t.literal, space());
    assert(t.literal.len() == 3);
    let sa = text.subrange(p + 4 + n, p + 7 + n);
    assert(sa[0] == text[p + 4 + n] && sa[1] == text[p + 5 + n] && sa[2] == text[p + 6 + n]);
    assert(text.subrange(p + 5 + n, p + 6 + n) =~= seq![0x3du8]);
    assert(text.subrange(p + 7 + n + m, end) =~= seq![0x3bu8]);
    lemma_scan_one(text, p, t);
    lemma_scan_one(text, p + 4, name.token);
    lemma_scans_after_space(text, p + 3, seq![name.token], p + 4 + n);
    lemma_scan_one(text, p + 5 + n, assign_token());
    lemma_scans_after_space(text, p + 4 + n, seq![assign_token()], p + 6 + n);
    lemma_scan_expr(text, p + 7 + n, value);
    lemma_scans_after_space(text, p + 6 + n, expr_tokens(value), p + 7 + n + m);
    lemma_scan_one(text, p + 7 + n + m, semi);
    lemma_scans_concat(text, p, seq![t], p + 3, seq![name.token], p + 4 + n);
    assert(seq![t] + seq![name.token] =~= seq![t, name.token]);
    lemma_scans_concat(text, p, seq![t, name.token], p + 4 + n, seq![assign_token()], p + 6 + n);
    assert(seq![t, name.token] + seq![assign_token()] =~= seq![t, name.token, assign_token()]);
    lemma_scans_concat(
        text,
        p,
        seq![t, name.token, assign_token()],
        p + 6 + n,
        expr_tokens(value),
        p + 7 + n + m,
    );
    lemma_scans_concat(
        text,
        p,
        seq![t, name.token, assign_token()] + expr_tokens(value),
        p + 7 + n + m,
        seq![semi],
        end,
    );
}

proof fn lemma_scan_bare_return(text: Seq<u8>, p: int, t: TokenView)
    requires
        stmt_well_formed(StmtView::Return(t, None)),
        0 <= p,
        p + StmtView::Return(t, None).text().len() <= text.len(),
        text.subrange(p, p + StmtView::Return(t, None).text().len()) == StmtView::Return(
            t,
            None,
        ).text(),
    ensures
        ({
            let s = StmtView::Return(t, None);
            scans_as(text, p, stmt_tokens(s), p + s.text().len())
        }),
{
    let semi = semicolon_token();
    lemma_split(text, p, t.literal, semicolon());
    assert(t.literal.len() == 6);
    assert(text.subrange(p + 6, p + 7) =~= seq![0x3bu8]);
    lemma_scan_one(text, p, t);
    lemma_scan_one(text, p + 6, semi);
    lemma_scans_concat(text, p, seq![t], p + 6, seq![semi], p + 7);
    assert(seq![t] + seq![semi] =~= seq![t, semi]);
}

#[verifier::rlimit(40)]
proof fn lemma_scan_value_return(text: Seq<u8>, p: int, t: TokenView, value: ExprView)
    requires
        stmt_well_formed(StmtView::Return(t, Some(value))),
        0 <= p,
        p + StmtView::Return(t, Some(value)).text().len() <= text.len(),
        text.subrange(p, p + StmtView::Return(t, Some(value)).text().len()) == StmtView::Return(
            t,
            Some(value),
        ).text(),
    ensures
        ({
            let s = StmtView::Return(t, Some(value));
            scans_as(text, p, stmt_tokens(s), p + s.text().len())
        }),
{
    let s = StmtView::Return(t, Some(value));
    let end = p + s.text().len();
    let semi = semicolon_token();
    let v = value.text();
    let m = v.len() as int;
    lemma_expr_facts(value);
    lemma_split(text, p, t.literal + space() + v, semicolon());
    lemma_split(text, p, t.literal + space(), v);
    lemma_split(text, p, t.literal, space());
    assert(t.literal.len() == 6);
    assert(text.subrange(p + 7 + m, end) =~= seq![0x3bu8]);
    lemma_scan_one(text, p, t);
    lemma_scan_expr(text, p + 7, value);
    lemma_scans_after_space(text, p + 6, expr_tokens(value), p + 7 + m);
    lemma_scan_one(text, p + 7 + m, semi);
    lemma_scans_concat(text, p, seq![t], p + 6, expr_tokens(value), p + 7 + m);
    lemma_scans_concat(text, p, seq![t] + expr_tokens(value), p + 7 + m, seq![semi], end);
}

/// The tokens of a statement as it stands in a program's text.
pub open spec fn terminated_tokens(s: StmtView) -> Seq<TokenView> {
    match s {
        StmtView::Expression(_, e) => expr_tokens(e) + seq![semicolon_token()],
        _ => stmt_tokens(s),
    }
}

/// A well-formed statement's text, closed as in a program, scans into its tokens
/// wherever it stands.
proof fn lemma_scan_terminated(text: Seq<u8>, p: int, s: StmtView)
    requires
        stmt_well_formed(s),
        0 <= p,
        p + s.terminated_text().len() <= text.len(),
        text.subrange(p, p + s.terminated_text().len()) == s.terminated_text(),
    ensures
        scans_as(text, p, terminated_tokens(s), p + s.terminated_text().len()),
{
    match s {
        StmtView::Let(t, name, value) => lemma_scan_let(text, p, t, name, value),
        StmtView::Return(t, None) => lemma_scan_bare_return(text, p, t),
        StmtView::Return(t, Some(value)) => lemma_scan_value_return(text, p, t, value),
        StmtView::Expression(_, e) => {
            let m = e.text().len() as int;
            lemma_split(text, p, e.text(), semicolon());
            assert(text.subrange(p + m, p + m + 1) =~= seq![0x3bu8]);
            lemma_scan_expr(text, p, e);
            lemma_scan_one(text, p + m, semicolon_token());
            lemma_scans_concat(text, p, expr_tokens(e), p + m, seq![semicolon_token()], p + m + 1);
        },
    }
}

/// The text of a well-formed statement scans back into the statement's tokens.
proof fn lemma_scan_stmt(s: StmtView)
    requires
        stmt_well_formed(s),
    ensures
        tokens_from(s.text(), 0) == stmt_tokens(s).push(eof_token()),
{
    let text = s.text();
    let end = text.len() as int;
    assert(text.subrange(0, end) =~= text);
    match s {
        StmtView::Let(t, name, value) => lemma_scan_let(text, 0, t, name, value),
        StmtView::Return(t, None) => lemma_scan_bare_return(text, 0, t),
        StmtView::Return(t, Some(value)) => lemma_scan_value_return(text, 0, t, value),
        StmtView::Expression(_, e) => {
            assert(text.subrange(0, end) =~= text);
            lemma_scan_expr(text, 0, e);
        },
    }
    let toks = stmt_tokens(s);
    assert forall|k: int| 0 <= k < toks.len() implies (#[trigger] toks[k]).kind != TokenKind::Eof by {
        match s {
            StmtView::Let(t, name, value) => {
                lemma_expr_facts(value);
                if 3 <= k < 3 + expr_tokens(value).len() {
                    assert(toks[k] == expr_tokens(value)[k - 3]);
                }
            },
            StmtView::Return(t, Some(value)) => {
                lemma_expr_facts(value);
                if 1 <= k < 1 + expr_tokens(value).len() {
                    assert(toks[k] == expr_tokens(value)[k - 1]);
                }
            },
            StmtView::Expression(_, e) => {
                lemma_expr_facts(e);
            },
            _ => {},
        }
    }
    lemma_tokens_of_scan(text, toks);
}

proof fn lemma_standard_tables(kind: TokenKind)
    ensures
        prefix_of(standard_tables(), kind) == match kind {
            TokenKind::Ident => Some(PrefixHandler::Identifier),
            TokenKind::Int => Some(PrefixHandler::IntegerLiteral),
            TokenKind::Bang | TokenKind::Minus => Some(PrefixHandler::Operator),
            _ => None,
        },
        infix_of(standard_tables(), kind) == if is_binary_kind(kind) {
            Some(InfixHandler::Binary)
        } else {
            None
        },
{
}

/// What the language's own tables build from well-formed tokens is a well-formed
/// expression made of exactly the tokens consumed.
proof fn lemma_parse_expr_output(ts: Seq<TokenView>, i: int, prec: u8)
    requires
        0 <= i,
        all_well_formed(ts),
    ensures
        ({
            let r = parse_expr(ts, standard_tables(), i, prec);
            r.0 is Some ==> expr_well_formed(r.0->0) && expr_tokens(r.0->0) == ts.subrange(
                i,
                r.1 + 1,
            )
        }),
    decreases ts.len() - i, 1int,
{
    let g = standard_tables();
    let cur = at(ts, i);
    lemma_standard_tables(cur.kind);
    lemma_parse_expr_bounds(ts, g, i, prec);
    match prefix_of(g, cur.kind) {
        None => {},
        Some(PrefixHandler::Identifier) => {
            let left = ExprView::Identifier(IdentifierView { token: cur, value: cur.literal });
            assert(expr_tokens(left) =~= ts.subrange(i, i + 1));
            lemma_parse_infix_output(ts, i, i, left, prec);
        },
        Some(PrefixHandler::IntegerLiteral) => {
            match integer_value(cur.literal) {
                None => {},
                Some(v) => {
                    let left = ExprView::Integer(cur, v);
                    assert(expr_tokens(left) =~= ts.subrange(i, i + 1));
                    lemma_parse_infix_output(ts, i, i, left, prec);
                },
            }
        },
        Some(PrefixHandler::Operator) => {
            lemma_parse_expr_bounds(ts, g, i + 1, PREFIX);
            lemma_parse_expr_output(ts, i + 1, PREFIX);
            let r = parse_expr(ts, g, i + 1, PREFIX);
            match r.0 {
                None => {},
                Some(right) => {
                    let left = ExprView::Prefix(cur, Box::new(right));
                    assert(expr_tokens(left) =~= ts.subrange(i, r.1 + 1));
                    lemma_parse_infix_output(ts, i, r.1, left, prec);
                },
            }
        },
    }
}

proof fn lemma_parse_infix_output(ts: Seq<TokenView>, i0: int, j: int, left: ExprView, prec: u8)
    requires
        0 <= i0 <= j < ts.len(),
        all_well_formed(ts),
        expr_well_formed(left),
        expr_tokens(left) == ts.subrange(i0, j + 1),
    ensures
        ({
            let r = parse_infix(ts, standard_tables(), j, left, prec);
            r.0 is Some ==> expr_well_formed(r.0->0) && expr_tokens(r.0->0) == ts.subrange(
                i0,
                r.1 + 1,
            )
        }),
    decreases ts.len() - j, 0int,
{
    let g = standard_tables();
    let peek = at(ts, j + 1);
    lemma_standard_tables(peek.kind);
    if peek.kind == TokenKind::Semicolon || prec >= precedence_of(peek.kind) {
    } else {
        match infix_of(g, peek.kind) {
            None => {},
            Some(InfixHandler::Binary) => {
                let p = precedence_of(peek.kind);
                lemma_parse_expr_bounds(ts, g, j + 2, p);
                lemma_parse_expr_output(ts, j + 2, p);
                let r = parse_expr(ts, g, j + 2, p);
                match r.0 {
                    None => {},
                    Some(right) => {
                        let e = ExprView::Infix(peek, Box::new(left), Box::new(right));
                        assert(expr_tokens(e) =~= ts.subrange(i0, r.1 + 1));
                        lemma_parse_infix_output(ts, i0, r.1, e, prec);
                    },
                }
            },
        }
    }
}

/// Two token sequences that agree (up to a shift `d`) on the tokens an expression
/// consumed, and in the second of which a semicolon or the end follows them, parse
/// that expression alike.
#[verifier::rlimit(40)]
proof fn lemma_parse_expr_local(
    ts: Seq<TokenView>,
    ts2: Seq<TokenView>,
    g: HandlerTables,
    i: int,
    d: int,
    prec: u8,
    e_end: int,
)
    requires
        0 <= i,
        0 <= i + d,
        parse_expr(ts, g, i, prec).0 is Some,
        parse_expr(ts, g, i, prec).1 <= e_end,
        forall|k: int|
            i <= k <= e_end ==> #[trigger] at(ts2, k + d) == at(ts, k) && at(ts, k).kind
                != TokenKind::Eof,
        at(ts2, e_end + 1 + d).kind == TokenKind::Semicolon || at(ts2, e_end + 1 + d).kind
            == TokenKind::Eof,
    ensures
        parse_expr(ts2, g, i + d, prec) == (
            parse_expr(ts, g, i, prec).0,
            parse_expr(ts, g, i, prec).1 + d,
            Seq::<Seq<u8>>::empty(),
        ),
    decreases ts.len() - i, 1int,
{
    let cur = at(ts, i);
    lemma_parse_expr_bounds(ts, g, i, prec);
    assert(at(ts2, i + d) == cur);
    match prefix_of(g, cur.kind) {
        None => {},
        Some(PrefixHandler::Identifier) => {
            let left = ExprView::Identifier(IdentifierView { token: cur, value: cur.literal });
            lemma_parse_infix_local(ts, ts2, g, i, d, left, prec, e_end);
        },
        Some(PrefixHandler::IntegerLiteral) => {
            match integer_value(cur.literal) {
                None => {},
                Some(v) => {
                    lemma_parse_infix_local(ts, ts2, g, i, d, ExprView::Integer(cur, v), prec, e_end);
                },
            }
        },
        Some(PrefixHandler::Operator) => {
            lemma_parse_expr_bounds(ts, g, i + 1, PREFIX);
            let r = parse_expr(ts, g, i + 1, PREFIX);
            match r.0 {
                None => {},
                Some(right) => {
                    let left = ExprView::Prefix(cur, Box::new(right));
                    lemma_parse_infix_bounds(ts, g, r.1, left, prec);
                    lemma_parse_expr_local(ts, ts2, g, i + 1, d, PREFIX, e_end);
                    assert(at(ts2, r.1 + d) == at(ts, r.1));
                    lemma_parse_infix_local(ts, ts2, g, r.1, d, left, prec, e_end);
                },
            }
        },
    }
}

#[verifier::rlimit(40)]
proof fn lemma_parse_infix_local(
    ts: Seq<TokenView>,
    ts2: Seq<TokenView>,
    g: HandlerTables,
    j: int,
    d: int,
    left: ExprView,
    prec: u8,
    e_end: int,
)
    requires
        0 <= j < ts.len(),
        0 <= j + d,
        parse_infix(ts, g, j, left, prec).0 is Some,
        parse_infix(ts, g, j, left, prec).1 <= e_end,
        forall|k: int|
            j <= k <= e_end ==> #[trigger] at(ts2, k + d) == at(ts, k) && at(ts, k).kind
                != TokenKind::Eof,
        at(ts2, e_end + 1 + d).kind == TokenKind::Semicolon || at(ts2, e_end + 1 + d).kind
            == TokenKind::Eof,
    ensures
        parse_infix(ts2, g, j + d, left, prec) == (
            parse_infix(ts, g, j, left, prec).0,
            parse_infix(ts, g, j, left, prec).1 + d,
            Seq::<Seq<u8>>::empty(),
        ),
    decreases ts.len() - j, 0int,
{
    let peek = at(ts, j + 1);
    lemma_parse_infix_bounds(ts, g, j, left, prec);
    let stops = peek.kind == TokenKind::Semicolon || prec >= precedence_of(peek.kind)
        || infix_of(g, peek.kind) is None;
    if !stops {
        let p = precedence_of(peek.kind);
        lemma_parse_expr_bounds(ts, g, j + 2, p);
        let r = parse_expr(ts, g, j + 2, p);
        if let Some(right) = r.0 {
            let e = ExprView::Infix(peek, Box::new(left), Box::new(right));
            lemma_parse_infix_bounds(ts, g, r.1, e, prec);
            assert(j + 1 <= e_end);
            assert(at(ts2, j + 1 + d) == peek);
            lemma_parse_expr_local(ts, ts2, g, j + 2, d, p, e_end);
            assert(at(ts2, r.1 + d) == at(ts, r.1));
            lemma_parse_infix_local(ts, ts2, g, r.1, d, e, prec, e_end);
        }
    } else if j < e_end {
        assert(at(ts2, j + 1 + d) == peek);
    }
}

proof fn lemma_expr_tokens_agree(ts: Seq<TokenView>, i: int, e_end: int, e: ExprView, ts2: Seq<TokenView>, at2: int)
    requires
        0 <= i <= e_end < ts.len(),
        expr_well_formed(e),
        expr_tokens(e) == ts.subrange(i, e_end + 1),
        0 <= at2,
        at2 + expr_tokens(e).len() <= ts2.len(),
        ts2.subrange(at2, at2 + expr_tokens(e).len()) == expr_tokens(e),
    ensures
        forall|k: int|
            i <= k <= e_end ==> #[trigger] at(ts2, k + (at2 - i)) == at(ts, k) && at(ts, k).kind
                != TokenKind::Eof,
{
    lemma_expr_facts(e);
    assert forall|k: int| i <= k <= e_end implies #[trigger] at(ts2, k + (at2 - i)) == at(ts, k)
        && at(ts, k).kind != TokenKind::Eof by {
        assert(expr_tokens(e)[k - i] == ts[k]);
        assert(ts2.subrange(at2, at2 + expr_tokens(e).len())[k - i] == ts2[k + (at2 - i)]);
    }
}

/// A statement that the language's own tables parse from well-formed tokens is well
/// formed.
proof fn lemma_parsed_well_formed(ts: Seq<TokenView>, i: int)
    requires
        0 <= i < ts.len(),
        all_well_formed(ts),
        parse_stmt(ts, standard_tables(), i).0 is Some,
    ensures
        stmt_well_formed(parse_stmt(ts, standard_tables(), i).0->0),
{
    let g = standard_tables();
    let t = at(ts, i);
    if t.kind == TokenKind::Let {
        lemma_parse_expr_bounds(ts, g, i + 3, LOWEST);
        lemma_parse_expr_output(ts, i + 3, LOWEST);
    } else if t.kind == TokenKind::Return {
        lemma_parse_expr_bounds(ts, g, i + 1, LOWEST);
        lemma_parse_expr_output(ts, i + 1, LOWEST);
    } else {
        let re = parse_expr(ts, g, i, LOWEST);
        lemma_parse_expr_bounds(ts, g, i, LOWEST);
        lemma_parse_expr_output(ts, i, LOWEST);
        lemma_expr_facts(re.0->0);
        assert(expr_tokens(re.0->0)[0] == ts.subrange(i, re.1 + 1)[0]);
    }
}

#[verifier::rlimit(40)]
proof fn lemma_let_relocate(ts: Seq<TokenView>, i: int, ts2: Seq<TokenView>, o: int)
    requires
        0 <= i < ts.len(),
        all_well_formed(ts),
        at(ts, i).kind == TokenKind::Let,
        parse_let(ts, standard_tables(), i).0 is Some,
        0 <= o,
        ({
            let toks = stmt_tokens(parse_let(ts, standard_tables(), i).0->0);
            o + toks.len() <= ts2.len() && ts2.subrange(o, o + toks.len()) == toks
        }),
    ensures
        parse_stmt(ts2, standard_tables(), o) == (
            parse_let(ts, standard_tables(), i).0,
            o + stmt_tokens(parse_let(ts, standard_tables(), i).0->0).len() - 1,
            Seq::<Seq<u8>>::empty(),
        ),
{
    let g = standard_tables();
    let name = at(ts, i + 1);
    let re = parse_expr(ts, g, i + 3, LOWEST);
    lemma_parse_expr_bounds(ts, g, i + 3, LOWEST);
    lemma_parse_expr_output(ts, i + 3, LOWEST);
    let v = re.0->0;
    let s = StmtView::Let(at(ts, i), IdentifierView { token: name, value: name.literal }, v);
    assert(at(ts, i + 2) == assign_token());
    assert(at(ts, re.1 + 1) == semicolon_token());
    let toks = stmt_tokens(s);
    let ev = expr_tokens(v);
    assert(toks == seq![at(ts, i), name, assign_token()] + ev + seq![semicolon_token()]);
    assert(ev.len() == re.1 - i - 2);
    assert(ts2.subrange(o + 3, o + 3 + ev.len() as int) =~= ev) by {
        assert forall|k: int| 0 <= k < ev.len() implies ts2.subrange(
            o + 3,
            o + 3 + ev.len() as int,
        )[k] == ev[k] by {
            assert(ts2.subrange(o, o + toks.len())[3 + k] == toks[3 + k]);
        }
    }
    lemma_expr_tokens_agree(ts, i + 3, re.1, v, ts2, o + 3);
    assert(ts2.subrange(o, o + toks.len())[toks.len() - 1] == semicolon_token());
    assert(at(ts2, re.1 + 1 + (o - i)) == semicolon_token());
    lemma_parse_expr_local(ts, ts2, g, i + 3, o - i, LOWEST, re.1);
    assert(ts2.subrange(o, o + toks.len())[0] == at(ts, i));
    assert(ts2.subrange(o, o + toks.len())[1] == name);
    assert(ts2.subrange(o, o + toks.len())[2] == assign_token());
}

#[verifier::rlimit(40)]
proof fn lemma_return_relocate(ts: Seq<TokenView>, i: int, ts2: Seq<TokenView>, o: int)
    requires
        0 <= i < ts.len(),
        all_well_formed(ts),
        at(ts, i).kind == TokenKind::Return,
        parse_return(ts, standard_tables(), i).0 is Some,
        0 <= o,
        ({
            let toks = stmt_tokens(parse_return(ts, standard_tables(), i).0->0);
            o + toks.len() <= ts2.len() && ts2.subrange(o, o + toks.len()) == toks
        }),
    ensures
        parse_stmt(ts2, standard_tables(), o) == (
            parse_return(ts, standard_tables(), i).0,
            o + stmt_tokens(parse_return(ts, standard_tables(), i).0->0).len() - 1,
            Seq::<Seq<u8>>::empty(),
        ),
{
    let g = standard_tables();
    let t = at(ts, i);
    let s = parse_return(ts, g, i).0->0;
    let toks = stmt_tokens(s);
    assert(ts2.subrange(o, o + toks.len())[0] == t);
    if at(ts, i + 1).kind == TokenKind::Semicolon {
        assert(ts2.subrange(o, o + toks.len())[1] == semicolon_token());
    } else {
        let re = parse_expr(ts, g, i + 1, LOWEST);
        lemma_parse_expr_bounds(ts, g, i + 1, LOWEST);
        lemma_parse_expr_output(ts, i + 1, LOWEST);
        let v = re.0->0;
        assert(at(ts, re.1 + 1) == semicolon_token());
        let ev = expr_tokens(v);
        assert(toks == seq![t] + ev + seq![semicolon_token()]);
        assert(ev.len() == re.1 - i);
        assert(ts2.subrange(o + 1, o + 1 + ev.len() as int) =~= ev) by {
            assert forall|k: int| 0 <= k < ev.len() implies ts2.subrange(
                o + 1,
                o + 1 + ev.len() as int,
            )[k] == ev[k] by {
                assert(ts2.subrange(o, o + toks.len())[1 + k] == toks[1 + k]);
            }
        }
        lemma_expr_tokens_agree(ts, i + 1, re.1, v, ts2, o + 1);
        assert(ts2.subrange(o, o + toks.len())[toks.len() - 1] == semicolon_token());
        assert(at(ts2, re.1 + 1 + (o - i)) == semicolon_token());
        lemma_parse_expr_local(ts, ts2, g, i + 1, o - i, LOWEST, re.1);
        assert(at(ts2, o + 1) == at(ts, i + 1));
    }
}

#[verifier::rlimit(40)]
proof fn lemma_expression_relocate(
    ts: Seq<TokenView>,
    i: int,
    ts2: Seq<TokenView>,
    o: int,
    closed: bool,
)
    requires
        0 <= i < ts.len(),
        all_well_formed(ts),
        at(ts, i).kind != TokenKind::Let,
        at(ts, i).kind != TokenKind::Return,
        parse_expression_stmt(ts, standard_tables(), i).0 is Some,
        0 <= o,
        ({
            let s = parse_expression_stmt(ts, standard_tables(), i).0->0;
            let toks = if closed {
                terminated_tokens(s)
            } else {
                stmt_tokens(s)
            };
            &&& o + toks.len() <= ts2.len()
            &&& ts2.subrange(o, o + toks.len()) == toks
            &&& !closed ==> at(ts2, o + toks.len()).kind == TokenKind::Eof
        }),
    ensures
        ({
            let s = parse_expression_stmt(ts, standard_tables(), i).0->0;
            let toks = if closed {
                terminated_tokens(s)
            } else {
                stmt_tokens(s)
            };
            parse_stmt(ts2, standard_tables(), o) == (Some(s), o + toks.len() - 1, Seq::<
                Seq<u8>,
            >::empty())
        }),
{
    let g = standard_tables();
    let t = at(ts, i);
    let re = parse_expr(ts, g, i, LOWEST);
    lemma_parse_expr_bounds(ts, g, i, LOWEST);
    lemma_parse_expr_output(ts, i, LOWEST);
    let e = re.0->0;
    let s = StmtView::Expression(t, e);
    let ev = expr_tokens(e);
    let toks = if closed {
        terminated_tokens(s)
    } else {
        stmt_tokens(s)
    };
    lemma_expr_facts(e);
    assert(ev.len() == re.1 - i + 1);
    assert(ts2.subrange(o, o + ev.len() as int) =~= ev) by {
        assert forall|k: int| 0 <= k < ev.len() implies ts2.subrange(o, o + ev.len() as int)[k]
            == ev[k] by {
            assert(ts2.subrange(o, o + toks.len())[k] == toks[k]);
        }
    }
    lemma_expr_tokens_agree(ts, i, re.1, e, ts2, o);
    if closed {
        assert(ts2.subrange(o, o + toks.len())[ev.len() as int] == semicolon_token());
    }
    assert(at(ts2, re.1 + 1 + (o - i)) == at(ts2, o + ev.len()));
    lemma_parse_expr_local(ts, ts2, g, i, o - i, LOWEST, re.1);
    assert(at(ts2, o) == t);
}

/// The tokens of a parsed statement, standing anywhere in another token sequence and
/// followed by the end of it (or, closed by a semicolon, by anything), parse into the
/// same statement there.
proof fn lemma_stmt_relocate(ts: Seq<TokenView>, i: int, ts2: Seq<TokenView>, o: int, closed: bool)
    requires
        0 <= i < ts.len(),
        all_well_formed(ts),
        parse_stmt(ts, standard_tables(), i).0 is Some,
        0 <= o,
        ({
            let s = parse_stmt(ts, standard_tables(), i).0->0;
            let toks = if closed {
                terminated_tokens(s)
            } else {
                stmt_tokens(s)
            };
            &&& o + toks.len() <= ts2.len()
            &&& ts2.subrange(o, o + toks.len()) == toks
            &&& !closed ==> at(ts2, o + toks.len()).kind == TokenKind::Eof
        }),
    ensures
        ({
            let s = parse_stmt(ts, standard_tables(), i).0->0;
            let toks = if closed {
                terminated_tokens(s)
            } else {
                stmt_tokens(s)
            };
            parse_stmt(ts2, standard_tables(), o) == (Some(s), o + toks.len() - 1, Seq::<
                Seq<u8>,
            >::empty())
        }),
{
    if at(ts, i).kind == TokenKind::Let {
        lemma_let_relocate(ts, i, ts2, o);
    } else if at(ts, i).kind == TokenKind::Return {
        lemma_return_relocate(ts, i, ts2, o);
    } else {
        lemma_expression_relocate(ts, i, ts2, o, closed);
    }
}

proof fn lemma_statement_origin(ts: Seq<TokenView>, g: HandlerTables, i: int, k: int) -> (origin:
    int)
    requires
        0 <= i,
        0 <= k < parse_statements(ts, g, i).0.len(),
    ensures
        0 <= origin < ts.len(),
        parse_stmt(ts, g, origin).0 == Some(parse_statements(ts, g, i).0[k]),
    decreases ts.len() - i,
{
    lemma_parse_statements_step(ts, g, i);
    let r = parse_stmt(ts, g, i);
    let j = match r.0 {
        Some(_) => r.1,
        None => statement_boundary(ts, r.1),
    };
    if r.0 is Some && k == 0 {
        i
    } else {
        let here_len: int = if r.0 is Some {
            1
        } else {
            0
        };
        lemma_statement_origin(ts, g, j + 1, k - here_len)
    }
}

/// Every statement that parsing a text yields renders to a text that parses back into
/// exactly that statement, with no diagnostic.
pub proof fn lemma_statement_round_trip(input: Seq<u8>, k: int)
    requires
        0 <= k < parse_text(input).0.len(),
    ensures
        parse_text(parse_text(input).0[k].text()) == (
            seq![parse_text(input).0[k]],
            Seq::<Seq<u8>>::empty(),
        ),
{
    let ts = tokens_from(input, 0);
    let g = standard_tables();
    lemma_tokens_well_formed(input, 0);
    let i = lemma_statement_origin(ts, g, 0, k);
    let s = parse_text(input).0[k];
    lemma_parsed_well_formed(ts, i);
    lemma_scan_stmt(s);
    let ts2 = tokens_from(s.text(), 0);
    let toks = stmt_tokens(s);
    assert(ts2.subrange(0, toks.len() as int) =~= toks);
    lemma_stmt_relocate(ts, i, ts2, 0, false);
    lemma_parse_statements_step(ts2, g, 0);
    let rest = parse_statements(ts2, g, toks.len() as int);
    assert(seq![s] + rest.0 =~= seq![s]);
    assert(Seq::<Seq<u8>>::empty() + rest.1 =~= Seq::<Seq<u8>>::empty());
}

/// The tokens of a program's canonical text, in order.
pub open spec fn program_tokens(stmts: Seq<StmtView>) -> Seq<TokenView>
    decreases stmts.len(),
{
    if stmts.len() == 0 {
        Seq::empty()
    } else {
        program_tokens(stmts.drop_last()) + terminated_tokens(stmts.last())
    }
}

proof fn lemma_terminated_tokens_facts(s: StmtView)
    requires
        stmt_well_formed(s),
    ensures
        terminated_tokens(s).len() > 0,
        forall|k: int|
            0 <= k < terminated_tokens(s).len() ==> (#[trigger] terminated_tokens(s)[k]).kind
                != TokenKind::Eof,
{
    let toks = terminated_tokens(s);
    assert forall|k: int| 0 <= k < toks.len() implies (#[trigger] toks[k]).kind != TokenKind::Eof by {
        match s {
            StmtView::Let(t, name, value) => {
                lemma_expr_facts(value);
                if 3 <= k < 3 + expr_tokens(value).len() {
                    assert(toks[k] == expr_tokens(value)[k - 3]);
                }
            },
            StmtView::Return(t, Some(value)) => {
                lemma_expr_facts(value);
                if 1 <= k < 1 + expr_tokens(value).len() {
                    assert(toks[k] == expr_tokens(value)[k - 1]);
                }
            },
            StmtView::Expression(_, e) => {
                lemma_expr_facts(e);
                if k < expr_tokens(e).len() {
                    assert(toks[k] == expr_tokens(e)[k]);
                }
            },
            _ => {},
        }
    }
    match s {
        StmtView::Expression(_, e) => lemma_expr_facts(e),
        _ => {},
    }
}

proof fn lemma_program_tokens_facts(stmts: Seq<StmtView>)
    requires
        forall|k: int| 0 <= k < stmts.len() ==> stmt_well_formed(#[trigger] stmts[k]),
    ensures
        forall|k: int|
            0 <= k < program_tokens(stmts).len() ==> (#[trigger] program_tokens(stmts)[k]).kind
                != TokenKind::Eof,
    decreases stmts.len(),
{
    if stmts.len() > 0 {
        let init = stmts.drop_last();
        assert forall|k: int| 0 <= k < init.len() implies stmt_well_formed(#[trigger] init[k]) by {
            assert(init[k] == stmts[k]);
        }
        lemma_program_tokens_facts(init);
        assert(stmt_well_formed(stmts[stmts.len() - 1]));
        lemma_terminated_tokens_facts(stmts.last());
        let a = program_tokens(init);
        assert forall|k: int| 0 <= k < program_tokens(stmts).len() implies (
        #[trigger] program_tokens(stmts)[k]).kind != TokenKind::Eof by {
            if k < a.len() {
                assert(program_tokens(stmts)[k] == a[k]);
            } else {
                assert(program_tokens(stmts)[k] == terminated_tokens(stmts.last())[k - a.len()]);
            }
        }
    }
}

proof fn lemma_program_tokens_prefix(stmts: Seq<StmtView>, m: int)
    requires
        0 <= m <= stmts.len(),
    ensures
        program_tokens(stmts.take(m)).len() <= program_tokens(stmts).len(),
        program_tokens(stmts).subrange(0, program_tokens(stmts.take(m)).len() as int)
            == program_tokens(stmts.take(m)),
    decreases stmts.len(),
{
    if m == stmts.len() {
        assert(stmts.take(m) =~= stmts);
        assert(program_tokens(stmts).subrange(0, program_tokens(stmts).len() as int)
            =~= program_tokens(stmts));
    } else {
        let init = stmts.drop_last();
        assert(init.take(m) =~= stmts.take(m));
        lemma_program_tokens_prefix(init, m);
        let a = program_tokens(init);
        let b = program_tokens(stmts.take(m));
        assert(program_tokens(stmts).subrange(0, b.len() as int) =~= a.subrange(0, b.len() as int));
    }
}

/// The canonical text of well-formed statements scans into their tokens.
proof fn lemma_scan_program(text: Seq<u8>, p: int, stmts: Seq<StmtView>)
    requires
        forall|k: int| 0 <= k < stmts.len() ==> stmt_well_formed(#[trigger] stmts[k]),
        0 <= p,
        p + statements_text(stmts).len() <= text.len(),
        text.subrange(p, p + statements_text(stmts).len()) == statements_text(stmts),
    ensures
        scans_as(text, p, program_tokens(stmts), p + statements_text(stmts).len()),
    decreases stmts.len(),
{
    if stmts.len() == 0 {
        reveal(scans_as);
    } else {
        let init = stmts.drop_last();
        let s = stmts.last();
        assert forall|k: int| 0 <= k < init.len() implies stmt_well_formed(#[trigger] init[k]) by {
            assert(init[k] == stmts[k]);
        }
        assert(stmt_well_formed(stmts[stmts.len() - 1]));
        let a = statements_text(init);
        lemma_split(text, p, a, s.terminated_text());
        lemma_scan_program(text, p, init);
        lemma_scan_terminated(text, p + a.len(), s);
        lemma_scans_concat(
            text,
            p,
            program_tokens(init),
            p + a.len(),
            terminated_tokens(s),
            p + statements_text(stmts).len(),
        );
    }
}

#[verifier::rlimit(40)]
proof fn lemma_parse_program_tokens(input: Seq<u8>, k: int)
    requires
        0 <= k <= parse_text(input).0.len(),
    ensures
        ({
            let stmts = parse_text(input).0;
            let ts2 = program_tokens(stmts).push(eof_token());
            parse_statements(ts2, standard_tables(), program_tokens(stmts.take(k)).len() as int)
                == (stmts.skip(k), Seq::<Seq<u8>>::empty())
        }),
    decreases parse_text(input).0.len() - k,
{
    let ts = tokens_from(input, 0);
    let g = standard_tables();
    let stmts = parse_text(input).0;
    let all = program_tokens(stmts);
    let ts2 = all.push(eof_token());
    lemma_program_tokens_prefix(stmts, k);
    let o = program_tokens(stmts.take(k)).len() as int;
    if k == stmts.len() {
        assert(stmts.take(k) =~= stmts);
        assert(at(ts2, o) == eof_token());
        assert(stmts.skip(k) =~= Seq::<StmtView>::empty());
    } else {
        lemma_tokens_well_formed(input, 0);
        let i = lemma_statement_origin(ts, g, 0, k);
        let s = stmts[k];
        lemma_parsed_well_formed(ts, i);
        lemma_terminated_tokens_facts(s);
        let toks = terminated_tokens(s);
        assert(stmts.take(k + 1).drop_last() =~= stmts.take(k));
        assert(program_tokens(stmts.take(k + 1)) == program_tokens(stmts.take(k)) + toks);
        lemma_program_tokens_prefix(stmts, k + 1);
        let b = program_tokens(stmts.take(k + 1));
        assert(ts2.subrange(o, o + toks.len()) =~= toks) by {
            assert forall|x: int| 0 <= x < toks.len() implies ts2.subrange(o, o + toks.len())[x]
                == toks[x] by {
                assert(all.subrange(0, b.len() as int)[o + x] == b[o + x]);
            }
        }
        lemma_stmt_relocate(ts, i, ts2, o, true);
        assert(ts2[o] == toks[0]);
        lemma_parse_statements_step(ts2, g, o);
        lemma_parse_program_tokens(input, k + 1);
        assert(stmts.skip(k) =~= seq![s] + stmts.skip(k + 1));
        assert(Seq::<Seq<u8>>::empty() + Seq::<Seq<u8>>::empty() =~= Seq::<Seq<u8>>::empty());
    }
}

/// The canonical text of the statements that parsing a text yields parses back into
/// the same statements, with no diagnostic.
pub proof fn lemma_program_round_trip(input: Seq<u8>)
    ensures
        parse_text(statements_text(parse_text(input).0)) == (
            parse_text(input).0,
            Seq::<Seq<u8>>::empty(),
        ),
{
    let ts = tokens_from(input, 0);
    let g = standard_tables();
    let stmts = parse_text(input).0;
    let text = statements_text(stmts);
    lemma_tokens_well_formed(input, 0);
    assert forall|k: int| 0 <= k < stmts.len() implies stmt_well_formed(#[trigger] stmts[k]) by {
        let i = lemma_statement_origin(ts, g, 0, k);
        lemma_parsed_well_formed(ts, i);
    }
    assert(text.subrange(0, text.len() as int) =~= text);
    lemma_scan_program(text, 0, stmts);
    lemma_program_tokens_facts(stmts);
    lemma_tokens_of_scan(text, program_tokens(stmts));
    lemma_parse_program_tokens(input, 0);
    assert(stmts.take(0) =~= Seq::<StmtView>::empty());
    assert(stmts.skip(0) =~= stmts);
}

} // verus!
