use vstd::prelude::*;
use crate::token::{at, eof_token, lookup_ident, word_kind, Token, TokenKind, TokenView};

verus! {

/// `a`..`z`, `A`..`Z` and `_`.
pub open spec fn is_letter_byte(c: u8) -> bool {
    (0x61 <= c && c <= 0x7a) || (0x41 <= c && c <= 0x5a) || c == 0x5f
}

/// `0`..`9`.
pub open spec fn is_digit_byte(c: u8) -> bool {
    0x30 <= c && c <= 0x39
}

/// Space, tab, newline and carriage return.
pub open spec fn is_whitespace_byte(c: u8) -> bool {
    c == 0x20 || c == 0x09 || c == 0x0a || c == 0x0d
}

/// The byte at `i`, or the end marker 0 outside the input.
pub open spec fn byte_at(input: Seq<u8>, i: int) -> u8 {
    if 0 <= i < input.len() {
        input[i]
    } else {
        0
    }
}

/// The first position at or after `pos` that does not hold whitespace.
pub open spec fn skip_whitespace_from(input: Seq<u8>, pos: int) -> int
    decreases input.len() - pos,
{
    if 0 <= pos < input.len() && is_whitespace_byte(input[pos]) {
        skip_whitespace_from(input, pos + 1)
    } else {
        pos
    }
}

/// The end of the maximal run of letters that starts at `pos`.
pub open spec fn letters_end(input: Seq<u8>, pos: int) -> int
    decreases input.len() - pos,
{
    if 0 <= pos < input.len() && is_letter_byte(input[pos]) {
        letters_end(input, pos + 1)
    } else {
        pos
    }
}

/// The end of the maximal run of digits that starts at `pos`.
pub open spec fn digits_end(input: Seq<u8>, pos: int) -> int
    decreases input.len() - pos,
{
    if 0 <= pos < input.len() && is_digit_byte(input[pos]) {
        digits_end(input, pos + 1)
    } else {
        pos
    }
}

/// The kind of a one-byte operator or delimiter; `Illegal` for any other byte.
pub open spec fn single_byte_kind(c: u8) -> TokenKind {
    if c == 0x3d {
        TokenKind::Assign
    } else if c == 0x21 {
        TokenKind::Bang
    } else if c == 0x3b {
        TokenKind::Semicolon
    } else if c == 0x28 {
        TokenKind::LParen
    } else if c == 0x29 {
        TokenKind::RParen
    } else if c == 0x2c {
        TokenKind::Comma
    } else if c == 0x2b {
        TokenKind::Plus
    } else if c == 0x2d {
        TokenKind::Minus
    } else if c == 0x2f {
        TokenKind::Slash
    } else if c == 0x2a {
        TokenKind::Asterisk
    } else if c == 0x3c {
        TokenKind::Lt
    } else if c == 0x3e {
        TokenKind::Gt
    } else if c == 0x7b {
        TokenKind::LBrace
    } else if c == 0x7d {
        TokenKind::RBrace
    } else {
        TokenKind::Illegal
    }
}

/// Whether the lexeme at `s` is a two-byte `==` or `!=`.
pub open spec fn is_two_byte_operator(input: Seq<u8>, s: int) -> bool {
    (byte_at(input, s) == 0x3d || byte_at(input, s) == 0x21) && byte_at(input, s + 1) == 0x3d
}

/// Where the lexeme that starts at `s` (no whitespace there) ends.
pub open spec fn lexeme_end(input: Seq<u8>, s: int) -> int {
    if s >= input.len() {
        s
    } else if is_two_byte_operator(input, s) {
        s + 2
    } else if is_letter_byte(input[s]) {
        letters_end(input, s)
    } else if is_digit_byte(input[s]) {
        digits_end(input, s)
    } else {
        s + 1
    }
}

/// The kind of the lexeme that starts at `s` (no whitespace there).
pub open spec fn lexeme_kind(input: Seq<u8>, s: int) -> TokenKind {
    if s >= input.len() {
        TokenKind::Eof
    } else if is_two_byte_operator(input, s) {
        if input[s] == 0x3d {
            TokenKind::Eq
        } else {
            TokenKind::NotEq
        }
    } else if is_letter_byte(input[s]) {
        word_kind(input.subrange(s, letters_end(input, s)))
    } else if is_digit_byte(input[s]) {
        TokenKind::Int
    } else {
        single_byte_kind(input[s])
    }
}

/// The token that scanning from `pos` produces.
pub open spec fn scan_token(input: Seq<u8>, pos: int) -> TokenView {
    let s = skip_whitespace_from(input, pos);
    TokenView {
        kind: lexeme_kind(input, s),
        literal: if s < input.len() {
            input.subrange(s, lexeme_end(input, s))
        } else {
            Seq::empty()
        },
    }
}

/// Where the cursor stands after scanning one token from `pos`.
pub open spec fn scan_end(input: Seq<u8>, pos: int) -> int {
    lexeme_end(input, skip_whitespace_from(input, pos))
}

/// The cursor after `n` tokens have been scanned from `start`.
pub open spec fn position_from(input: Seq<u8>, start: int, n: nat) -> int
    decreases n,
{
    if n == 0 {
        start
    } else {
        scan_end(input, position_from(input, start, (n - 1) as nat))
    }
}

/// The `n`-th token (counting from 0) scanned from `start`.
pub open spec fn token_from(input: Seq<u8>, start: int, n: nat) -> TokenView {
    scan_token(input, position_from(input, start, n))
}

/// How many tokens come before the end of the input when scanning from `pos`.
pub open spec fn tokens_remaining(input: Seq<u8>, pos: int) -> nat
    decreases input.len() - pos,
{
    if scan_token(input, pos).kind != TokenKind::Eof && pos < scan_end(input, pos) <= input.len() {
        1 + tokens_remaining(input, scan_end(input, pos))
    } else {
        0
    }
}

/// The tokens scanned from `start`, ending with the end-of-input token.
pub open spec fn tokens_from(input: Seq<u8>, start: int) -> Seq<TokenView> {
    Seq::new(tokens_remaining(input, start) + 1, |i: int| token_from(input, start, i as nat))
}

/// Whether `ch` can be part of an identifier or keyword.
pub fn is_letter(ch: u8) -> (r: bool)
    ensures
        r == is_letter_byte(ch),
{
    (0x61 <= ch && ch <= 0x7a) || (0x41 <= ch && ch <= 0x5a) || ch == 0x5f
}

/// Whether `ch` is a decimal digit.
pub fn is_digit(ch: u8) -> (r: bool)
    ensures
        r == is_digit_byte(ch),
{
    0x30 <= ch && ch <= 0x39
}

fn is_whitespace(ch: u8) -> (r: bool)
    ensures
        r == is_whitespace_byte(ch),
{
    ch == 0x20 || ch == 0x09 || ch == 0x0a || ch == 0x0d
}

fn single_byte(ch: u8) -> (r: TokenKind)
    ensures
        r == single_byte_kind(ch),
{
    if ch == 0x3d {
        TokenKind::Assign
    } else if ch == 0x21 {
        TokenKind::Bang
    } else if ch == 0x3b {
        TokenKind::Semicolon
    } else if ch == 0x28 {
        TokenKind::LParen
    } else if ch == 0x29 {
        TokenKind::RParen
    } else if ch == 0x2c {
        TokenKind::Comma
    } else if ch == 0x2b {
        TokenKind::Plus
    } else if ch == 0x2d {
        TokenKind::Minus
    } else if ch == 0x2f {
        TokenKind::Slash
    } else if ch == 0x2a {
        TokenKind::Asterisk
    } else if ch == 0x3c {
        TokenKind::Lt
    } else if ch == 0x3e {
        TokenKind::Gt
    } else if ch == 0x7b {
        TokenKind::LBrace
    } else if ch == 0x7d {
        TokenKind::RBrace
    } else {
        TokenKind::Illegal
    }
}

/// A scanner over a source buffer, with one byte of lookahead.
#[derive(Clone, Debug)]
pub struct Lexer {
    /// The source bytes.
    pub input: Vec<u8>,
    /// The index of `ch`; it may stand at or past the end of the input.
    pub position: usize,
    /// The index of the byte after `ch`.
    pub read_position: usize,
    /// The byte under the cursor, or 0 at the end.
    pub ch: u8,
}

impl Lexer {
    /// `read_position` is one past the cursor and `ch` is the byte under the cursor
    /// (0 at or past the end of the input).
    pub open spec fn wf(&self) -> bool {
        &&& self.input.len() < usize::MAX
        &&& self.position < usize::MAX
        &&& self.read_position == self.position + 1
        &&& self.ch == byte_at(self.input@, self.position as int)
    }

    pub fn new(input: Vec<u8>) -> (r: Lexer)
        requires
            input.len() < usize::MAX,
        ensures
            r.wf(),
            r.input@ == input@,
            r.position == 0,
    {
        let mut l = Lexer { input, position: 0, read_position: 0, ch: 0 };
        l.read_char();
        l
    }

    /// The byte after the one under the cursor, or 0 past the end.
    pub fn peek_char(&self) -> (r: u8)
        requires
            self.wf(),
        ensures
            r == byte_at(self.input@, self.read_position as int),
    {
        if self.read_position >= self.input.len() {
            0
        } else {
            self.input[self.read_position]
        }
    }

    /// Moves the cursor to `read_position`, also past the end of the input.
    pub fn read_char(&mut self)
        requires
            old(self).read_position < usize::MAX,
        ensures
            final(self).input == old(self).input,
            final(self).position == old(self).read_position,
            final(self).read_position == old(self).read_position + 1,
            final(self).ch == byte_at(old(self).input@, old(self).read_position as int),
    {
        if self.read_position >= self.input.len() {
            self.ch = 0;
        } else {
            self.ch = self.input[self.read_position];
        }
        self.position = self.read_position;
        self.read_position = self.read_position + 1;
    }

    pub fn new_token(&self, kind: TokenKind, literal: Vec<u8>) -> (r: Token)
        ensures
            r@ == (TokenView { kind, literal: literal@ }),
    {
        Token::new(kind, literal)
    }

    /// Scans the next token and moves the cursor to its end.
    pub fn next_token(&mut self) -> (r: Token)
        requires
            old(self).wf(),
        ensures
            final(self).wf(),
            final(self).input == old(self).input,
            r@ == scan_token(old(self).input@, old(self).position as int),
            final(self).position == scan_end(old(self).input@, old(self).position as int),
    {
        proof {
            if self.position <= self.input.len() {
                lemma_skip_whitespace(self.input@, self.position as int);
            }
        }
        self.skip_whitespace();
        let ghost input = self.input@;
        let ghost s = self.position as int;
        if self.position >= self.input.len() {
            return self.new_token(TokenKind::Eof, Vec::new());
        }
        let ch = self.ch;
        if (ch == 0x3d || ch == 0x21) && self.peek_char() == 0x3d {
            self.read_char();
            self.read_char();
            let kind = if ch == 0x3d {
                TokenKind::Eq
            } else {
                TokenKind::NotEq
            };
            let r = self.new_token(kind, vec![ch, 0x3d]);
            assert(r@.literal =~= input.subrange(s, s + 2));
            r
        } else if is_letter(ch) {
            let literal = self.read_identifier();
            let kind = lookup_ident(literal.as_slice());
            self.new_token(kind, literal)
        } else if is_digit(ch) {
            let literal = self.read_number();
            self.new_token(TokenKind::Int, literal)
        } else {
            self.read_char();
            let r = self.new_token(single_byte(ch), vec![ch]);
            assert(r@.literal =~= input.subrange(s, s + 1));
            r
        }
    }

    /// Reads the maximal run of letters under the cursor.
    pub fn read_identifier(&mut self) -> (r: Vec<u8>)
        requires
            old(self).wf(),
        ensures
            final(self).wf(),
            final(self).input == old(self).input,
            final(self).position == letters_end(old(self).input@, old(self).position as int),
            old(self).position <= old(self).input.len() ==> r@ == old(self).input@.subrange(
                old(self).position as int,
                final(self).position as int,
            ),
            old(self).position > old(self).input.len() ==> r@.len() == 0,
    {
        let start = self.position;
        let mut out: Vec<u8> = Vec::new();
        while is_letter(self.ch)
            invariant
                self.wf(),
                self.input == old(self).input,
                start <= self.position,
                letters_end(self.input@, self.position as int) == letters_end(
                    self.input@,
                    start as int,
                ),
                start <= self.input.len() ==> self.position <= self.input.len() && out@
                    == self.input@.subrange(start as int, self.position as int),
                start > self.input.len() ==> self.position == start && out@.len() == 0,
            decreases self.input.len() - self.position,
        {
            out.push(self.ch);
            self.read_char();
            assert(out@ =~= self.input@.subrange(start as int, self.position as int));
        }
        out
    }

    /// Reads the maximal run of digits under the cursor.
    pub fn read_number(&mut self) -> (r: Vec<u8>)
        requires
            old(self).wf(),
        ensures
            final(self).wf(),
            final(self).input == old(self).input,
            final(self).position == digits_end(old(self).input@, old(self).position as int),
            old(self).position <= old(self).input.len() ==> r@ == old(self).input@.subrange(
                old(self).position as int,
                final(self).position as int,
            ),
            old(self).position > old(self).input.len() ==> r@.len() == 0,
    {
        let start = self.position;
        let mut out: Vec<u8> = Vec::new();
        while is_digit(self.ch)
            invariant
                self.wf(),
                self.input == old(self).input,
                start <= self.position,
                digits_end(self.input@, self.position as int) == digits_end(
                    self.input@,
                    start as int,
                ),
                start <= self.input.len() ==> self.position <= self.input.len() && out@
                    == self.input@.subrange(start as int, self.position as int),
                start > self.input.len() ==> self.position == start && out@.len() == 0,
            decreases self.input.len() - self.position,
        {
            out.push(self.ch);
            self.read_char();
            assert(out@ =~= self.input@.subrange(start as int, self.position as int));
        }
        out
    }

    /// Moves the cursor past spaces, tabs, newlines and carriage returns.
    pub fn skip_whitespace(&mut self)
        requires
            old(self).wf(),
        ensures
            final(self).wf(),
            final(self).input == old(self).input,
            final(self).position == skip_whitespace_from(
                old(self).input@,
                old(self).position as int,
            ),
    {
        while is_whitespace(self.ch)
            invariant
                self.wf(),
                self.input == old(self).input,
                skip_whitespace_from(self.input@, self.position as int) == skip_whitespace_from(
                    self.input@,
                    old(self).position as int,
                ),
            decreases self.input.len() - self.position,
        {
            self.read_char();
        }
    }
}

/// Scans the whole input: every token in order, ending with the end-of-input token.
pub fn tokenize(input: Vec<u8>) -> (r: Vec<Token>)
    requires
        input.len() < usize::MAX,
    ensures
        r@.len() == tokens_from(input@, 0).len(),
        forall|i: int| 0 <= i < r@.len() ==> (#[trigger] r@[i])@ == tokens_from(input@, 0)[i],
{
    let ghost text = input@;
    let ghost count = tokens_remaining(text, 0);
    let mut lexer = Lexer::new(input);
    let mut out: Vec<Token> = Vec::new();
    proof {
        lemma_scanner_reaches_end(text, 0, 0);
    }
    loop
        invariant_except_break
            out@.len() <= count,
            lexer.position == position_from(text, 0, out@.len() as nat),
        invariant
            lexer.wf(),
            lexer.input@ == text,
            count == tokens_remaining(text, 0),
            forall|i: int|
                0 <= i < out@.len() ==> (#[trigger] out@[i])@ == token_from(text, 0, i as nat),
        ensures
            out@.len() == count + 1,
        decreases count - out@.len(),
    {
        let ghost n = out@.len() as nat;
        proof {
            lemma_scanner_reaches_end(text, 0, n);
        }
        let tok = lexer.next_token();
        let done = tok.kind == TokenKind::Eof;
        out.push(tok);
        if done {
            break;
        }
    }
    out
}

proof fn lemma_skip_whitespace(input: Seq<u8>, pos: int)
    requires
        0 <= pos <= input.len(),
    ensures
        pos <= skip_whitespace_from(input, pos) <= input.len(),
        skip_whitespace_from(input, pos) < input.len() ==> !is_whitespace_byte(
            input[skip_whitespace_from(input, pos)],
        ),
    decreases input.len() - pos,
{
    if pos < input.len() && is_whitespace_byte(input[pos]) {
        lemma_skip_whitespace(input, pos + 1);
    }
}

pub(crate) proof fn lemma_letters_end(input: Seq<u8>, pos: int)
    requires
        0 <= pos <= input.len(),
    ensures
        pos <= letters_end(input, pos) <= input.len(),
        pos < input.len() && is_letter_byte(input[pos]) ==> pos < letters_end(input, pos),
    decreases input.len() - pos,
{
    if pos < input.len() && is_letter_byte(input[pos]) {
        lemma_letters_end(input, pos + 1);
    }
}

pub(crate) proof fn lemma_digits_end(input: Seq<u8>, pos: int)
    requires
        0 <= pos <= input.len(),
    ensures
        pos <= digits_end(input, pos) <= input.len(),
        pos < input.len() && is_digit_byte(input[pos]) ==> pos < digits_end(input, pos),
    decreases input.len() - pos,
{
    if pos < input.len() && is_digit_byte(input[pos]) {
        lemma_digits_end(input, pos + 1);
    }
}

/// One scan from a position inside the input stays inside it; it moves the cursor
/// unless it meets the end, where it leaves the cursor at the end.
pub proof fn lemma_scan_step(input: Seq<u8>, pos: int)
    requires
        0 <= pos <= input.len(),
    ensures
        pos <= skip_whitespace_from(input, pos) <= scan_end(input, pos) <= input.len(),
        scan_token(input, pos).kind == TokenKind::Eof <==> skip_whitespace_from(input, pos)
            == input.len(),
        scan_token(input, pos).kind == TokenKind::Eof ==> scan_end(input, pos) == input.len()
            && scan_token(input, pos) == eof_token(),
        scan_token(input, pos).kind != TokenKind::Eof ==> pos < scan_end(input, pos),
{
    let s = skip_whitespace_from(input, pos);
    lemma_skip_whitespace(input, pos);
    if s < input.len() {
        lemma_letters_end(input, s);
        lemma_digits_end(input, s);
        if is_letter_byte(input[s]) && !is_two_byte_operator(input, s) {
            let w = input.subrange(s, letters_end(input, s));
            assert(word_kind(w) != TokenKind::Eof);
        }
    } else {
        assert(input.subrange(s, s) =~= Seq::<u8>::empty());
    }
}

proof fn lemma_tokens_remaining_bound(input: Seq<u8>, pos: int)
    requires
        0 <= pos <= input.len(),
    ensures
        tokens_remaining(input, pos) <= input.len() - pos,
        tokens_remaining(input, pos) == 0 <==> scan_token(input, pos).kind == TokenKind::Eof,
    decreases input.len() - pos,
{
    lemma_scan_step(input, pos);
    if scan_token(input, pos).kind != TokenKind::Eof {
        lemma_tokens_remaining_bound(input, scan_end(input, pos));
    }
}

proof fn lemma_position_from_prefix(input: Seq<u8>, start: int, n: nat)
    requires
        0 <= start <= input.len(),
        n <= tokens_remaining(input, start),
    ensures
        0 <= position_from(input, start, n) <= input.len(),
        tokens_remaining(input, position_from(input, start, n)) == tokens_remaining(input, start)
            - n,
    decreases n,
{
    if n > 0 {
        lemma_position_from_prefix(input, start, (n - 1) as nat);
        let p = position_from(input, start, (n - 1) as nat);
        lemma_scan_step(input, p);
        lemma_tokens_remaining_bound(input, p);
    }
}

proof fn lemma_position_from_end(input: Seq<u8>, start: int, n: nat)
    requires
        0 <= start <= input.len(),
        n > tokens_remaining(input, start),
    ensures
        position_from(input, start, n) == input.len(),
    decreases n,
{
    let c = tokens_remaining(input, start);
    if n == c + 1 {
        lemma_position_from_prefix(input, start, c);
        lemma_tokens_remaining_bound(input, position_from(input, start, c));
        lemma_scan_step(input, position_from(input, start, c));
    } else {
        lemma_position_from_end(input, start, (n - 1) as nat);
        lemma_scan_step(input, input.len() as int);
    }
}

/// Scanning any input from any position reaches its end: the first
/// `tokens_remaining(input, start)` tokens, at most one per byte left, each move the
/// cursor forward, and from then on every scan yields the end-of-input token and
/// leaves the cursor at the end.
pub proof fn lemma_scanner_reaches_end(input: Seq<u8>, start: int, n: nat)
    requires
        0 <= start <= input.len(),
    ensures
        tokens_remaining(input, start) <= input.len() - start,
        start <= position_from(input, start, n) <= input.len(),
        n < tokens_remaining(input, start) ==> token_from(input, start, n).kind != TokenKind::Eof
            && position_from(input, start, n) < position_from(input, start, n + 1),
        n >= tokens_remaining(input, start) ==> token_from(input, start, n) == eof_token()
            && position_from(input, start, n + 1) == input.len(),
    decreases n,
{
    let c = tokens_remaining(input, start);
    lemma_tokens_remaining_bound(input, start);
    if n > 0 {
        lemma_scanner_reaches_end(input, start, (n - 1) as nat);
        lemma_scan_step(input, position_from(input, start, (n - 1) as nat));
    }
    if n >= c {
        lemma_position_from_end(input, start, n + 1);
    }
    if n <= c {
        lemma_position_from_prefix(input, start, n);
        lemma_scan_step(input, position_from(input, start, n));
        lemma_tokens_remaining_bound(input, position_from(input, start, n));
    } else {
        lemma_position_from_end(input, start, n);
        lemma_scan_step(input, position_from(input, start, n));
    }
}

proof fn lemma_past_end(input: Seq<u8>, start: int)
    requires
        start > input.len(),
    ensures
        tokens_remaining(input, start) == 0,
        forall|n: nat| #[trigger] position_from(input, start, n) == start,
        forall|n: nat| #[trigger] token_from(input, start, n) == eof_token(),
{
    assert forall|n: nat| #[trigger] position_from(input, start, n) == start by {
        lemma_position_past_end(input, start, n);
    }
}

proof fn lemma_position_past_end(input: Seq<u8>, start: int, n: nat)
    requires
        start > input.len(),
    ensures
        position_from(input, start, n) == start,
    decreases n,
{
    if n > 0 {
        lemma_position_past_end(input, start, (n - 1) as nat);
    }
}

/// The end-of-input token closes the token sequence, no token before it is one, and
/// the sequence agrees with scanning token by token, also past its end.
pub proof fn lemma_tokens_from(input: Seq<u8>, start: int)
    requires
        0 <= start,
    ensures
        tokens_from(input, start).len() == tokens_remaining(input, start) + 1,
        tokens_from(input, start).last() == eof_token(),
        forall|i: int|
            0 <= i < tokens_remaining(input, start) ==> (#[trigger] tokens_from(
                input,
                start,
            )[i]).kind != TokenKind::Eof,
        forall|n: nat| #[trigger]
            token_from(input, start, n) == at(tokens_from(input, start), n as int),
{
    if start > input.len() {
        lemma_past_end(input, start);
        assert(tokens_from(input, start) =~= seq![eof_token()]);
        return;
    }
    let c = tokens_remaining(input, start);
    lemma_scanner_reaches_end(input, start, c);
    assert forall|i: int| 0 <= i < c implies (#[trigger] tokens_from(
        input,
        start,
    )[i]).kind != TokenKind::Eof by {
        lemma_scanner_reaches_end(input, start, i as nat);
    }
    assert forall|n: nat| #[trigger]
        token_from(input, start, n) == at(tokens_from(input, start), n as int) by {
        lemma_scanner_reaches_end(input, start, n);
    }
}

/// `==` and `!=` scan as one two-byte token each, never as two one-byte tokens.
pub proof fn lemma_two_byte_operators(input: Seq<u8>, pos: int)
    requires
        0 <= pos,
        pos + 1 < input.len(),
        input[pos] == 0x3d || input[pos] == 0x21,
        input[pos + 1] == 0x3d,
    ensures
        scan_token(input, pos).kind == (if input[pos] == 0x3d {
            TokenKind::Eq
        } else {
            TokenKind::NotEq
        }),
        scan_token(input, pos).literal == seq![input[pos], 0x3du8],
        scan_end(input, pos) == pos + 2,
{
    assert(input.subrange(pos, pos + 2) =~= seq![input[pos], 0x3du8]);
}

/// A byte that starts no token is scanned as an illegal token of its own, and the
/// cursor moves past it.
pub proof fn lemma_unrecognized_byte(input: Seq<u8>, pos: int)
    requires
        0 <= pos < input.len(),
        !is_whitespace_byte(input[pos]),
        !is_letter_byte(input[pos]),
        !is_digit_byte(input[pos]),
        single_byte_kind(input[pos]) == TokenKind::Illegal,
    ensures
        scan_token(input, pos) == (TokenView { kind: TokenKind::Illegal, literal: seq![input[pos]] }),
        scan_end(input, pos) == pos + 1,
{
    assert(input.subrange(pos, pos + 1) =~= seq![input[pos]]);
}

} // verus!
