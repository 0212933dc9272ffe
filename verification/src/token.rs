//! Tokens produced by the lexer.
use vstd::prelude::*;
use crate::text::{chars_of, string_from_chars, strings_view};

verus! {

#[derive(Clone, Copy, Debug, PartialEq, Eq, Structural)]
pub enum TokenKind {
    LParen,
    RParen,
    LBrace,
    RBrace,
    LBrack,
    RBrack,
    Comma,
    Dot,
    DotDot,
    Minus,
    Plus,
    Semicolon,
    Colon,
    FSlash,
    Asterisk,
    Incr,
    Decr,
    Bang,
    BangEqual,
    Equal,
    EqualEqual,
    Greater,
    GreaterEqual,
    Less,
    LessEqual,
    Identifier,
    String,
    Num,
    And,
    Break,
    Continue,
    Def,
    Else,
    False,
    For,
    If,
    In,
    Let,
    Not,
    Null,
    Or,
    Print,
    Return,
    Step,
    True,
    While,
    Eof,
    Indent,
    Dedent,
}

/// Where a token stands on its line, and the text it carries.
#[derive(Debug)]
pub struct TextSpan {
    pub start: usize,
    pub end: usize,
    pub literal: String,
}

#[derive(Debug)]
pub struct Token {
    pub kind: TokenKind,
    pub span: TextSpan,
    pub line: usize,
}

/// The mathematical picture of a token.
pub struct TokenV {
    pub kind: TokenKind,
    pub start: usize,
    pub end: usize,
    pub literal: Seq<char>,
    pub line: usize,
}

impl View for Token {
    type V = TokenV;

    open spec fn view(&self) -> TokenV {
        TokenV {
            kind: self.kind,
            start: self.span.start,
            end: self.span.end,
            literal: self.span.literal@,
            line: self.line,
        }
    }
}

pub open spec fn tokens_view(v: Seq<Token>) -> Seq<TokenV> {
    Seq::new(v.len(), |i: int| v[i]@)
}

impl TextSpan {
    pub fn new(start: usize, end: usize, literal: String) -> (r: Self)
        ensures
            r.start == start,
            r.end == end,
            r.literal@ == literal@,
    {
        TextSpan { start, end, literal }
    }

    /// The number of characters the span covers.
    pub fn _length(self) -> (r: usize)
        requires
            self.start <= self.end,
        ensures
            r == self.end - self.start,
    {
        self.end - self.start
    }
}

impl Token {
    pub fn new(kind: TokenKind, span: TextSpan, line: usize) -> (r: Self)
        ensures
            r.kind == kind,
            r.span.start == span.start,
            r.span.end == span.end,
            r.span.literal@ == span.literal@,
            r.line == line,
    {
        Token { kind, span, line }
    }

    pub fn duplicate(&self) -> (r: Token)
        ensures
            r@ == self@,
    {
        Token {
            kind: self.kind,
            span: TextSpan {
                start: self.span.start,
                end: self.span.end,
                literal: self.span.literal.clone(),
            },
            line: self.line,
        }
    }
}


/// The name of a kind of token.
#[verifier::when_used_as_spec(kind_name_spec)]
pub fn kind_name(k: TokenKind) -> (r: &'static str)
    ensures
        r == kind_name_spec(k),
{
    match k {
        TokenKind::LParen => "LParen",
        TokenKind::RParen => "RParen",
        TokenKind::LBrace => "LBrace",
        TokenKind::RBrace => "RBrace",
        TokenKind::LBrack => "LBrack",
        TokenKind::RBrack => "RBrack",
        TokenKind::Comma => "Comma",
        TokenKind::Dot => "Dot",
        TokenKind::DotDot => "DotDot",
        TokenKind::Minus => "Minus",
        TokenKind::Plus => "Plus",
        TokenKind::Semicolon => "Semicolon",
        TokenKind::Colon => "Colon",
        TokenKind::FSlash => "FSlash",
        TokenKind::Asterisk => "Asterisk",
        TokenKind::Incr => "Incr",
        TokenKind::Decr => "Decr",
        TokenKind::Bang => "Bang",
        TokenKind::BangEqual => "BangEqual",
        TokenKind::Equal => "Equal",
        TokenKind::EqualEqual => "EqualEqual",
        TokenKind::Greater => "Greater",
        TokenKind::GreaterEqual => "GreaterEqual",
        TokenKind::Less => "Less",
        TokenKind::LessEqual => "LessEqual",
        TokenKind::Identifier => "Identifier",
        TokenKind::String => "String",
        TokenKind::Num => "Num",
        TokenKind::And => "And",
        TokenKind::Break => "Break",
        TokenKind::Continue => "Continue",
        TokenKind::Def => "Def",
        TokenKind::Else => "Else",
        TokenKind::False => "False",
        TokenKind::For => "For",
        TokenKind::If => "If",
        TokenKind::In => "In",
        TokenKind::Let => "Let",
        TokenKind::Not => "Not",
        TokenKind::Null => "Null",
        TokenKind::Or => "Or",
        TokenKind::Print => "Print",
        TokenKind::Return => "Return",
        TokenKind::Step => "Step",
        TokenKind::True => "True",
        TokenKind::While => "While",
        TokenKind::Eof => "Eof",
        TokenKind::Indent => "Indent",
        TokenKind::Dedent => "Dedent",
    }
}

pub open spec fn kind_name_spec(k: TokenKind) -> &'static str {
    match k {
        TokenKind::LParen => "LParen",
        TokenKind::RParen => "RParen",
        TokenKind::LBrace => "LBrace",
        TokenKind::RBrace => "RBrace",
        TokenKind::LBrack => "LBrack",
        TokenKind::RBrack => "RBrack",
        TokenKind::Comma => "Comma",
        TokenKind::Dot => "Dot",
        TokenKind::DotDot => "DotDot",
        TokenKind::Minus => "Minus",
        TokenKind::Plus => "Plus",
        TokenKind::Semicolon => "Semicolon",
        TokenKind::Colon => "Colon",
        TokenKind::FSlash => "FSlash",
        TokenKind::Asterisk => "Asterisk",
        TokenKind::Incr => "Incr",
        TokenKind::Decr => "Decr",
        TokenKind::Bang => "Bang",
        TokenKind::BangEqual => "BangEqual",
        TokenKind::Equal => "Equal",
        TokenKind::EqualEqual => "EqualEqual",
        TokenKind::Greater => "Greater",
        TokenKind::GreaterEqual => "GreaterEqual",
        TokenKind::Less => "Less",
        TokenKind::LessEqual => "LessEqual",
        TokenKind::Identifier => "Identifier",
        TokenKind::String => "String",
        TokenKind::Num => "Num",
        TokenKind::And => "And",
        TokenKind::Break => "Break",
        TokenKind::Continue => "Continue",
        TokenKind::Def => "Def",
        TokenKind::Else => "Else",
        TokenKind::False => "False",
        TokenKind::For => "For",
        TokenKind::If => "If",
        TokenKind::In => "In",
        TokenKind::Let => "Let",
        TokenKind::Not => "Not",
        TokenKind::Null => "Null",
        TokenKind::Or => "Or",
        TokenKind::Print => "Print",
        TokenKind::Return => "Return",
        TokenKind::Step => "Step",
        TokenKind::True => "True",
        TokenKind::While => "While",
        TokenKind::Eof => "Eof",
        TokenKind::Indent => "Indent",
        TokenKind::Dedent => "Dedent",
    }
}

/// The decimal digit for `d`, which is below ten.
pub open spec fn digit_char(d: nat) -> char {
    if d == 0 { '0' } else if d == 1 { '1' } else if d == 2 { '2' } else if d == 3 { '3' } else if d == 4 { '4' }
    else if d == 5 { '5' } else if d == 6 { '6' } else if d == 7 { '7' } else if d == 8 { '8' } else { '9' }
}

/// The decimal numeral of `n`, without leading zeros.
pub open spec fn decimal(n: nat) -> Seq<char>
    decreases n,
{
    if n < 10 {
        seq![digit_char(n)]
    } else {
        decimal(n / 10).push(digit_char(n % 10))
    }
}

fn decimal_chars(n: usize) -> (r: Vec<char>)
    ensures
        r@ == decimal(n as nat),
    decreases n,
{
    let d = n % 10;
    let c = if d == 0 { '0' } else if d == 1 { '1' } else if d == 2 { '2' } else if d == 3 { '3' } else if d == 4 { '4' }
        else if d == 5 { '5' } else if d == 6 { '6' } else if d == 7 { '7' } else if d == 8 { '8' } else { '9' };
    if n < 10 {
        let mut v: Vec<char> = Vec::new();
        v.push(c);
        assert(v@ =~= seq![digit_char(n as nat)]);
        v
    } else {
        let mut v = decimal_chars(n / 10);
        v.push(c);
        v
    }
}

/// The text a token is shown by: its kind, its lexeme and its line.
pub open spec fn token_text(t: TokenV) -> Seq<char> {
    "Token { kind: "@ + kind_name_spec(t.kind)@ + ", lexeme: "@ + t.literal + ", line: "@ + decimal(t.line as nat) + " }"@
}

fn push_all(v: &mut Vec<char>, w: &Vec<char>)
    ensures
        final(v)@ == old(v)@ + w@,
{
    let mut i: usize = 0;
    while i < w.len()
        invariant
            i <= w@.len(),
            v@ == old(v)@ + w@.subrange(0, i as int),
        decreases w@.len() - i,
    {
        v.push(w[i]);
        assert(v@ =~= old(v)@ + w@.subrange(0, i + 1));
        i = i + 1;
    }
    assert(w@.subrange(0, w@.len() as int) =~= w@);
}

/// Shows a token as `Token { kind: K, lexeme: L, line: N }`.
pub fn serialize_token(token: &Token) -> (r: String)
    ensures
        r@ == token_text(token@),
{
    let mut out: Vec<char> = chars_of("Token { kind: ");
    push_all(&mut out, &chars_of(kind_name(token.kind)));
    push_all(&mut out, &chars_of(", lexeme: "));
    push_all(&mut out, &chars_of(token.span.literal.as_str()));
    push_all(&mut out, &chars_of(", line: "));
    push_all(&mut out, &decimal_chars(token.line));
    push_all(&mut out, &chars_of(" }"));
    string_from_chars(out.as_slice())
}

/// Lines `i: text` for the texts `ls[..k]`, numbered from zero and joined
/// by newlines.
pub open spec fn numbered_text(ls: Seq<Seq<char>>, k: int) -> Seq<char>
    decreases k,
{
    if k <= 0 {
        Seq::empty()
    } else {
        let line = decimal((k - 1) as nat) + ": "@ + ls[k - 1];
        if k == 1 {
            line
        } else {
            numbered_text(ls, k - 1) + "\n"@ + line
        }
    }
}

/// The texts as numbered lines, `0: first`, `1: second` and so on, one per
/// line; the way a program's instructions are listed.
pub fn numbered_lines(lines: &Vec<String>) -> (r: String)
    ensures
        r@ == numbered_text(strings_view(lines@), lines@.len() as int),
{
    let mut out: Vec<char> = Vec::new();
    let mut i: usize = 0;
    while i < lines.len()
        invariant
            i <= lines@.len(),
            out@ == numbered_text(strings_view(lines@), i as int),
        decreases lines@.len() - i,
    {
        if i > 0 {
            push_all(&mut out, &chars_of("\n"));
        }
        push_all(&mut out, &decimal_chars(i));
        push_all(&mut out, &chars_of(": "));
        push_all(&mut out, &chars_of(lines[i].as_str()));
        proof {
            let ls = strings_view(lines@);
            assert(ls[i as int] == lines@[i as int]@);
        }
        assert(out@ =~= numbered_text(strings_view(lines@), i + 1));
        i = i + 1;
    }
    string_from_chars(out.as_slice())
}

} // verus!
