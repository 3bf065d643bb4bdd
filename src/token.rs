use vstd::prelude::*;
use vstd::string::{StrSliceExecFns, StringSliceAdditionalSpecFns};

verus! {

/// The closed vocabulary of lexical categories.
#[derive(Clone, Copy, Debug, PartialEq, Eq, Structural, Hash)]
pub enum TokenKind {
    Illegal,
    Eof,
    Ident,
    Int,
    Assign,
    Plus,
    Minus,
    Bang,
    Asterisk,
    Slash,
    Lt,
    Gt,
    Comma,
    Semicolon,
    LParen,
    RParen,
    LBrace,
    RBrace,
    Eq,
    NotEq,
    Function,
    Let,
    True,
    False,
    If,
    Else,
    Return,
}

impl TokenKind {
    /// The stable text by which a kind is named in diagnostics.
    pub open spec fn spec_name(self) -> &'static str {
        match self {
            TokenKind::Illegal => "ILLEGAL",
            TokenKind::Eof => "EOF",
            TokenKind::Ident => "IDENT",
            TokenKind::Int => "INT",
            TokenKind::Assign => "=",
            TokenKind::Plus => "+",
            TokenKind::Minus => "-",
            TokenKind::Bang => "!",
            TokenKind::Asterisk => "*",
            TokenKind::Slash => "/",
            TokenKind::Lt => "<",
            TokenKind::Gt => ">",
            TokenKind::Comma => ",",
            TokenKind::Semicolon => ";",
            TokenKind::LParen => "(",
            TokenKind::RParen => ")",
            TokenKind::LBrace => "{",
            TokenKind::RBrace => "}",
            TokenKind::Eq => "==",
            TokenKind::NotEq => "!=",
            TokenKind::Function => "FUNCTION",
            TokenKind::Let => "LET",
            TokenKind::True => "TRUE",
            TokenKind::False => "FALSE",
            TokenKind::If => "IF",
            TokenKind::Else => "ELSE",
            TokenKind::Return => "RETURN",
        }
    }

    pub fn name(&self) -> (r: &'static str)
        ensures
            r == self.spec_name(),
    {
        match self {
            TokenKind::Illegal => "ILLEGAL",
            TokenKind::Eof => "EOF",
            TokenKind::Ident => "IDENT",
            TokenKind::Int => "INT",
            TokenKind::Assign => "=",
            TokenKind::Plus => "+",
            TokenKind::Minus => "-",
            TokenKind::Bang => "!",
            TokenKind::Asterisk => "*",
            TokenKind::Slash => "/",
            TokenKind::Lt => "<",
            TokenKind::Gt => ">",
            TokenKind::Comma => ",",
            TokenKind::Semicolon => ";",
            TokenKind::LParen => "(",
            TokenKind::RParen => ")",
            TokenKind::LBrace => "{",
            TokenKind::RBrace => "}",
            TokenKind::Eq => "==",
            TokenKind::NotEq => "!=",
            TokenKind::Function => "FUNCTION",
            TokenKind::Let => "LET",
            TokenKind::True => "TRUE",
            TokenKind::False => "FALSE",
            TokenKind::If => "IF",
            TokenKind::Else => "ELSE",
            TokenKind::Return => "RETURN",
        }
    }

    /// The bytes of `name`.
    pub fn name_bytes(&self) -> (r: Vec<u8>)
        ensures
            r@ == self.spec_name().spec_bytes(),
    {
        self.name().as_bytes_vec()
    }
}

/// How many token kinds there are.
pub const KIND_COUNT: usize = 27;

impl TokenKind {
    /// The kind's position in the vocabulary, below `KIND_COUNT`.
    pub open spec fn spec_index(self) -> nat {
        match self {
            TokenKind::Illegal => 0,
            TokenKind::Eof => 1,
            TokenKind::Ident => 2,
            TokenKind::Int => 3,
            TokenKind::Assign => 4,
            TokenKind::Plus => 5,
            TokenKind::Minus => 6,
            TokenKind::Bang => 7,
            TokenKind::Asterisk => 8,
            TokenKind::Slash => 9,
            TokenKind::Lt => 10,
            TokenKind::Gt => 11,
            TokenKind::Comma => 12,
            TokenKind::Semicolon => 13,
            TokenKind::LParen => 14,
            TokenKind::RParen => 15,
            TokenKind::LBrace => 16,
            TokenKind::RBrace => 17,
            TokenKind::Eq => 18,
            TokenKind::NotEq => 19,
            TokenKind::Function => 20,
            TokenKind::Let => 21,
            TokenKind::True => 22,
            TokenKind::False => 23,
            TokenKind::If => 24,
            TokenKind::Else => 25,
            TokenKind::Return => 26,
        }
    }

    pub fn index(&self) -> (r: usize)
        ensures
            r == self.spec_index(),
            r < KIND_COUNT,
    {
        match self {
            TokenKind::Illegal => 0,
            TokenKind::Eof => 1,
            TokenKind::Ident => 2,
            TokenKind::Int => 3,
            TokenKind::Assign => 4,
            TokenKind::Plus => 5,
            TokenKind::Minus => 6,
            TokenKind::Bang => 7,
            TokenKind::Asterisk => 8,
            TokenKind::Slash => 9,
            TokenKind::Lt => 10,
            TokenKind::Gt => 11,
            TokenKind::Comma => 12,
            TokenKind::Semicolon => 13,
            TokenKind::LParen => 14,
            TokenKind::RParen => 15,
            TokenKind::LBrace => 16,
            TokenKind::RBrace => 17,
            TokenKind::Eq => 18,
            TokenKind::NotEq => 19,
            TokenKind::Function => 20,
            TokenKind::Let => 21,
            TokenKind::True => 22,
            TokenKind::False => 23,
            TokenKind::If => 24,
            TokenKind::Else => 25,
            TokenKind::Return => 26,
        }
    }
}

/// A lexical unit: its category and the exact source bytes it was scanned from.
#[derive(Clone, Debug, PartialEq, Eq)]
pub struct Token {
    pub kind: TokenKind,
    pub literal: Vec<u8>,
}

/// The mathematical value of a token.
pub ghost struct TokenView {
    pub kind: TokenKind,
    pub literal: Seq<u8>,
}

impl View for Token {
    type V = TokenView;

    open spec fn view(&self) -> TokenView {
        TokenView { kind: self.kind, literal: self.literal@ }
    }
}

impl Token {
    pub fn new(kind: TokenKind, literal: Vec<u8>) -> (r: Token)
        ensures
            r.kind == kind,
            r.literal@ == literal@,
    {
        Token { kind, literal }
    }

    /// An independent copy of this token.
    pub fn duplicate(&self) -> (r: Token)
        ensures
            r@ == self@,
    {
        Token { kind: self.kind, literal: self.literal.clone() }
    }
}

/// The token that stands for the end of the input; it matches no source text.
pub open spec fn eof_token() -> TokenView {
    TokenView { kind: TokenKind::Eof, literal: Seq::empty() }
}

/// The token at index `i` of a token sequence; past its end, the end-of-input token.
pub open spec fn at(ts: Seq<TokenView>, i: int) -> TokenView {
    if 0 <= i < ts.len() {
        ts[i]
    } else {
        eof_token()
    }
}

/// The keyword that a run of letters spells, if any (the table is case-sensitive).
pub open spec fn keyword_kind(word: Seq<u8>) -> Option<TokenKind> {
    if word == seq![102u8, 110u8] {
        Some(TokenKind::Function)  // fn
    } else if word == seq![108u8, 101u8, 116u8] {
        Some(TokenKind::Let)  // let
    } else if word == seq![116u8, 114u8, 117u8, 101u8] {
        Some(TokenKind::True)  // true
    } else if word == seq![102u8, 97u8, 108u8, 115u8, 101u8] {
        Some(TokenKind::False)  // false
    } else if word == seq![105u8, 102u8] {
        Some(TokenKind::If)  // if
    } else if word == seq![101u8, 108u8, 115u8, 101u8] {
        Some(TokenKind::Else)  // else
    } else if word == seq![114u8, 101u8, 116u8, 117u8, 114u8, 110u8] {
        Some(TokenKind::Return)  // return
    } else {
        None
    }
}

/// The kind of a run of letters: its keyword, or an identifier.
pub open spec fn word_kind(word: Seq<u8>) -> TokenKind {
    match keyword_kind(word) {
        Some(k) => k,
        None => TokenKind::Ident,
    }
}

/// Classifies a run of letters against the keyword table.
pub fn lookup_ident(ident: &[u8]) -> (r: TokenKind)
    ensures
        r == word_kind(ident@),
{
    let n = ident.len();
    let r = if n == 2 && ident[0] == 102 && ident[1] == 110 {
        TokenKind::Function
    } else if n == 3 && ident[0] == 108 && ident[1] == 101 && ident[2] == 116 {
        TokenKind::Let
    } else if n == 4 && ident[0] == 116 && ident[1] == 114 && ident[2] == 117 && ident[3] == 101 {
        TokenKind::True
    } else if n == 5 && ident[0] == 102 && ident[1] == 97 && ident[2] == 108 && ident[3] == 115
        && ident[4] == 101 {
        TokenKind::False
    } else if n == 2 && ident[0] == 105 && ident[1] == 102 {
        TokenKind::If
    } else if n == 4 && ident[0] == 101 && ident[1] == 108 && ident[2] == 115 && ident[3] == 101 {
        TokenKind::Else
    } else if n == 6 && ident[0] == 114 && ident[1] == 101 && ident[2] == 116 && ident[3] == 117
        && ident[4] == 114 && ident[5] == 110 {
        TokenKind::Return
    } else {
        TokenKind::Ident
    };
    proof {
        let w = ident@;
        assert(w == seq![102u8, 110u8] <==> (n == 2 && w[0] == 102 && w[1] == 110)) by {
            if n == 2 && w[0] == 102 && w[1] == 110 {
                assert(w =~= seq![102u8, 110u8]);
            }
        }
        assert(w == seq![108u8, 101u8, 116u8] <==> (n == 3 && w[0] == 108 && w[1] == 101 && w[2]
            == 116)) by {
            if n == 3 && w[0] == 108 && w[1] == 101 && w[2] == 116 {
                assert(w =~= seq![108u8, 101u8, 116u8]);
            }
        }
        assert(w == seq![116u8, 114u8, 117u8, 101u8] <==> (n == 4 && w[0] == 116 && w[1] == 114
            && w[2] == 117 && w[3] == 101)) by {
            if n == 4 && w[0] == 116 && w[1] == 114 && w[2] == 117 && w[3] == 101 {
                assert(w =~= seq![116u8, 114u8, 117u8, 101u8]);
            }
        }
        assert(w == seq![102u8, 97u8, 108u8, 115u8, 101u8] <==> (n == 5 && w[0] == 102 && w[1]
            == 97 && w[2] == 108 && w[3] == 115 && w[4] == 101)) by {
            if n == 5 && w[0] == 102 && w[1] == 97 && w[2] == 108 && w[3] == 115 && w[4] == 101 {
                assert(w =~= seq![102u8, 97u8, 108u8, 115u8, 101u8]);
            }
        }
        assert(w == seq![105u8, 102u8] <==> (n == 2 && w[0] == 105 && w[1] == 102)) by {
            if n == 2 && w[0] == 105 && w[1] == 102 {
                assert(w =~= seq![105u8, 102u8]);
            }
        }
        assert(w == seq![101u8, 108u8, 115u8, 101u8] <==> (n == 4 && w[0] == 101 && w[1] == 108
            && w[2] == 115 && w[3] == 101)) by {
            if n == 4 && w[0] == 101 && w[1] == 108 && w[2] == 115 && w[3] == 101 {
                assert(w =~= seq![101u8, 108u8, 115u8, 101u8]);
            }
        }
        assert(w == seq![114u8, 101u8, 116u8, 117u8, 114u8, 110u8] <==> (n == 6 && w[0] == 114
            && w[1] == 101 && w[2] == 116 && w[3] == 117 && w[4] == 114 && w[5] == 110)) by {
            if n == 6 && w[0] == 114 && w[1] == 101 && w[2] == 116 && w[3] == 117 && w[4] == 114
                && w[5] == 110 {
                assert(w =~= seq![114u8, 101u8, 116u8, 117u8, 114u8, 110u8]);
            }
        }
    }
    r
}

} // verus!
