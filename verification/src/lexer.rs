//! The lexer: source characters to tokens, with indentation turned into
//! `Indent` and `Dedent` tokens.
use vstd::prelude::*;
use crate::text::{
    ascii_digit, chars_of, ident_char, is_ascii_digit, is_ident_char, lemma_scan_end, scan_end,
    string_from_chars, string_from_range,
    text_is,
};
use crate::token::{TextSpan, Token, TokenKind, TokenV, tokens_view};
use crate::error::{CompileError, LexerError};

verus! {

/// The state of the lexer between two steps.
pub struct LexState {
    pub idx: int,
    pub line: int,
    pub pos: int,
    pub last: int,
    pub indents: Seq<int>,
    pub line_start: bool,
    pub toks: Seq<TokenV>,
}

pub open spec fn mk_tok(kind: TokenKind, start: int, end: int, lit: Seq<char>, line: int) -> TokenV {
    TokenV { kind, start: start as usize, end: end as usize, literal: lit, line: line as usize }
}

pub open spec fn is_ws(c: char) -> bool {
    c == ' ' || c == '\t'
}

pub open spec fn not_quote_nl(c: char) -> bool {
    c != '"' && c != '\n'
}

pub open spec fn not_nl(c: char) -> bool {
    c != '\n'
}

pub open spec fn is_nl(c: char) -> bool {
    c == '\n'
}

pub open spec fn ws_pred() -> spec_fn(char) -> bool {
    |c: char| is_ws(c)
}

pub open spec fn digit_pred() -> spec_fn(char) -> bool {
    |c: char| is_ascii_digit(c)
}

pub open spec fn ident_pred() -> spec_fn(char) -> bool {
    |c: char| is_ident_char(c)
}

pub open spec fn string_pred() -> spec_fn(char) -> bool {
    |c: char| not_quote_nl(c)
}

pub open spec fn line_pred() -> spec_fn(char) -> bool {
    |c: char| not_nl(c)
}

pub open spec fn nl_pred() -> spec_fn(char) -> bool {
    |c: char| is_nl(c)
}

/// Tokens made of one character.
pub open spec fn single_kind(c: char) -> Option<TokenKind> {
    if c == '(' {
        Some(TokenKind::LParen)
    } else if c == ')' {
        Some(TokenKind::RParen)
    } else if c == '{' {
        Some(TokenKind::LBrace)
    } else if c == '}' {
        Some(TokenKind::RBrace)
    } else if c == '[' {
        Some(TokenKind::LBrack)
    } else if c == ']' {
        Some(TokenKind::RBrack)
    } else if c == ',' {
        Some(TokenKind::Comma)
    } else if c == ';' {
        Some(TokenKind::Semicolon)
    } else if c == ':' {
        Some(TokenKind::Colon)
    } else if c == '*' {
        Some(TokenKind::Asterisk)
    } else {
        None
    }
}

/// Tokens of one character that become another token when a given second
/// character follows: (second character, two-character kind, one-character kind).
pub open spec fn pair_kind(c: char) -> Option<(char, TokenKind, TokenKind)> {
    if c == '.' {
        Some(('.', TokenKind::DotDot, TokenKind::Dot))
    } else if c == '-' {
        Some(('-', TokenKind::Decr, TokenKind::Minus))
    } else if c == '+' {
        Some(('+', TokenKind::Incr, TokenKind::Plus))
    } else if c == '!' {
        Some(('=', TokenKind::BangEqual, TokenKind::Bang))
    } else if c == '=' {
        Some(('=', TokenKind::EqualEqual, TokenKind::Equal))
    } else if c == '<' {
        Some(('=', TokenKind::LessEqual, TokenKind::Less))
    } else if c == '>' {
        Some(('=', TokenKind::GreaterEqual, TokenKind::Greater))
    } else {
        None
    }
}

pub open spec fn keyword_of(t: Seq<char>) -> Option<TokenKind> {
    if t == "and"@ {
        Some(TokenKind::And)
    } else if t == "def"@ {
        Some(TokenKind::Def)
    } else if t == "else"@ {
        Some(TokenKind::Else)
    } else if t == "false"@ {
        Some(TokenKind::False)
    } else if t == "for"@ {
        Some(TokenKind::For)
    } else if t == "if"@ {
        Some(TokenKind::If)
    } else if t == "in"@ {
        Some(TokenKind::In)
    } else if t == "let"@ {
        Some(TokenKind::Let)
    } else if t == "not"@ {
        Some(TokenKind::Not)
    } else if t == "null"@ {
        Some(TokenKind::Null)
    } else if t == "or"@ {
        Some(TokenKind::Or)
    } else if t == "print"@ {
        Some(TokenKind::Print)
    } else if t == "return"@ {
        Some(TokenKind::Return)
    } else if t == "step"@ {
        Some(TokenKind::Step)
    } else if t == "true"@ {
        Some(TokenKind::True)
    } else if t == "while"@ {
        Some(TokenKind::While)
    } else {
        None
    }
}

/// Where a number that starts at `i` (after its first digit) ends: digits,
/// then a `.` that is not the start of `..`, then digits.
pub open spec fn number_end(s: Seq<char>, i: int) -> int {
    let d = scan_end(s, i, digit_pred());
    if d < s.len() && s[d] == '.' && !(d + 1 < s.len() && s[d + 1] == '.') {
        scan_end(s, d + 1, digit_pred())
    } else {
        d
    }
}

/// Where the kept digits of an integer part `s[a..d]` start: leading zeros
/// go, but the last digit stays.
pub open spec fn first_kept(s: Seq<char>, a: int, d: int) -> int
    decreases d - a,
{
    if a + 1 < d && s[a] == '0' {
        first_kept(s, a + 1, d)
    } else {
        a
    }
}

/// Where the kept digits of a fraction `s[f..b]` end: trailing zeros go.
pub open spec fn last_kept(s: Seq<char>, f: int, b: int) -> int
    decreases b - f,
{
    if b > f && s[b - 1] == '0' {
        last_kept(s, f, b - 1)
    } else {
        b
    }
}

/// The text a number `s[st..e]` stands for, as a float prints it: the
/// integer digits without leading zeros (one digit at least), then, where
/// the fraction has a digit other than trailing zeros, a `.` and those
/// digits. A number with at most fifteen significant digits prints so.
pub open spec fn number_text(s: Seq<char>, st: int, e: int) -> Seq<char> {
    let d = scan_end(s, st + 1, digit_pred());
    let a = first_kept(s, st, d);
    let b = last_kept(s, d + 1, e);
    if b > d + 1 {
        s.subrange(a, d) + seq!['.'] + s.subrange(d + 1, b)
    } else {
        s.subrange(a, d)
    }
}

/// The indentation stack without the levels deeper than `w`.
pub open spec fn pop_deeper(ind: Seq<int>, w: int) -> Seq<int>
    decreases ind.len(),
{
    if ind.len() > 0 && ind.last() > w {
        pop_deeper(ind.drop_last(), w)
    } else {
        ind
    }
}

pub open spec fn dedent_toks(n: nat, pos: int, line: int) -> Seq<TokenV>
    decreases n,
{
    if n == 0 {
        Seq::empty()
    } else {
        dedent_toks((n - 1) as nat, pos, line).push(mk_tok(TokenKind::Dedent, pos, pos, Seq::empty(), line))
    }
}

/// The token list once the input is used up: one `Dedent` for each open
/// indentation level, then `Eof`.
pub open spec fn finish(st: LexState) -> Seq<TokenV> {
    let n: nat = if st.indents.len() > 0 { (st.indents.len() - 1) as nat } else { 0 };
    st.toks + dedent_toks(n, st.pos, st.line) + seq![mk_tok(TokenKind::Eof, st.last, st.pos, Seq::empty(), st.line)]
}

/// The state once the `w` blanks that open a line are passed: the last
/// character read is the last of them, where there is one.
pub open spec fn after_ws(st: LexState, w: int) -> LexState {
    LexState { pos: st.pos + w, line_start: false, last: if w > 0 { st.pos + w - 1 } else { st.last }, ..st }
}

/// The first line character at column `w` (after the indentation): opens a
/// level, keeps it, or closes levels down to one that is exactly `w`.
pub open spec fn adjust_indent(st: LexState, w: int) -> Result<LexState, LexerError> {
    let top = if st.indents.len() > 0 { st.indents.last() } else { 0 };
    if w > top {
        Ok(LexState {
            indents: st.indents.push(w),
            toks: st.toks.push(mk_tok(TokenKind::Indent, st.pos, st.pos, Seq::empty(), st.line)),
            ..st
        })
    } else if w == top {
        Ok(st)
    } else {
        let p = pop_deeper(st.indents, w);
        if p.len() > 0 && p.last() == w {
            Ok(LexState {
                indents: p,
                toks: st.toks + dedent_toks((st.indents.len() - p.len()) as nat, st.pos, st.line),
                ..st
            })
        } else {
            Err(LexerError::InvalidIndentation { line: st.line as usize, col: w as usize })
        }
    }
}

/// Whether the line from `j` on holds nothing but a line end or a comment.
pub open spec fn blank_at(s: Seq<char>, j: int) -> bool {
    j >= s.len() || s[j] == '\n' || s[j] == '\r' || (s[j] == '/' && j + 1 < s.len() && s[j + 1]
        == '/')
}

pub enum LexStep {
    Next(LexState),
    Stop(Result<Seq<TokenV>, LexerError>),
}

/// One step on the character at `st.idx`, where a line is under way.
pub open spec fn char_step(s: Seq<char>, st: LexState) -> LexStep {
    let c = s[st.idx];
    let curr = st.pos;
    let st1 = LexState { idx: st.idx + 1, pos: st.pos + 1, last: curr, ..st };
    if single_kind(c) is Some {
        LexStep::Next(
            LexState {
                toks: st1.toks.push(mk_tok(single_kind(c)->0, curr, st1.pos, Seq::empty(), st1.line)),
                ..st1
            },
        )
    } else if pair_kind(c) is Some {
        let (second, two, one) = pair_kind(c)->0;
        if st1.idx < s.len() && s[st1.idx] == second {
            LexStep::Next(
                LexState {
                    idx: st1.idx + 1,
                    pos: st1.pos + 1,
                    toks: st1.toks.push(mk_tok(two, curr, st1.pos + 1, Seq::empty(), st1.line)),
                    ..st1
                },
            )
        } else {
            LexStep::Next(
                LexState {
                    toks: st1.toks.push(mk_tok(one, curr, st1.pos, Seq::empty(), st1.line)),
                    ..st1
                },
            )
        }
    } else if c == '\r' {
        let e = scan_end(s, st1.idx, nl_pred());
        let st2 = LexState { idx: e, pos: st1.pos + (e - st1.idx), ..st1 };
        if e >= s.len() {
            LexStep::Stop(Ok(finish(st2)))
        } else {
            LexStep::Next(LexState { line: st2.line + 1, pos: 0, line_start: true, ..st2 })
        }
    } else if c == '\n' {
        LexStep::Next(LexState { line: st1.line + 1, pos: 0, line_start: true, ..st1 })
    } else if c == ' ' || c == '\t' {
        LexStep::Next(st1)
    } else if c == '/' {
        if st1.idx < s.len() && s[st1.idx] == '/' {
            let e = scan_end(s, st1.idx + 1, line_pred());
            if e < s.len() {
                LexStep::Next(LexState { idx: e + 1, line: st1.line + 1, pos: 0, line_start: true, ..st1 })
            } else {
                LexStep::Next(LexState { idx: e, pos: st1.pos + 1 + (e - (st1.idx + 1)), ..st1 })
            }
        } else {
            LexStep::Next(
                LexState {
                    toks: st1.toks.push(mk_tok(TokenKind::FSlash, curr, st1.pos, Seq::empty(), st1.line)),
                    ..st1
                },
            )
        }
    } else if c == '"' {
        let e = scan_end(s, st1.idx, string_pred());
        if e < s.len() && s[e] == '"' {
            let pos2 = st1.pos + (e + 1 - st1.idx);
            LexStep::Next(
                LexState {
                    idx: e + 1,
                    pos: pos2,
                    toks: st1.toks.push(
                        mk_tok(TokenKind::String, curr, pos2, s.subrange(st1.idx, e), st1.line),
                    ),
                    ..st1
                },
            )
        } else {
            LexStep::Stop(Err(LexerError::UnterminatedString { line: st1.line as usize }))
        }
    } else if is_ascii_digit(c) {
        let e = number_end(s, st1.idx);
        let pos2 = st1.pos + (e - st1.idx);
        LexStep::Next(
            LexState {
                idx: e,
                pos: pos2,
                toks: st1.toks.push(mk_tok(TokenKind::Num, curr, pos2, number_text(s, st.idx, e), st1.line)),
                ..st1
            },
        )
    } else if is_ident_char(c) {
        let e = scan_end(s, st1.idx, ident_pred());
        let pos2 = st1.pos + (e - st1.idx);
        let text = s.subrange(st.idx, e);
        let tk = match keyword_of(text) {
            Some(k) => mk_tok(k, curr, pos2, Seq::empty(), st1.line),
            None => mk_tok(TokenKind::Identifier, curr, pos2, text, st1.line),
        };
        LexStep::Next(LexState { idx: e, pos: pos2, toks: st1.toks.push(tk), ..st1 })
    } else {
        LexStep::Stop(Err(LexerError::UnexpectedSymbol { line: st1.line as usize, symbol: c }))
    }
}

/// The tokens the lexer produces from state `st` on.
pub open spec fn lex_from(s: Seq<char>, st: LexState) -> Result<Seq<TokenV>, LexerError>
    decreases s.len() - st.idx, if st.line_start { 1int } else { 0int },
{
    if st.idx < 0 || st.idx > s.len() {
        Err(LexerError::UnterminatedString { line: 0 })
    } else if st.line_start {
        let j = scan_end(s, st.idx, ws_pred());
        let w = j - st.idx;
        let st1 = after_ws(st, w);
        if j < st.idx || j > s.len() {
            Err(LexerError::UnterminatedString { line: 0 })
        } else if blank_at(s, j) {
            lex_from(s, LexState { idx: j, ..st1 })
        } else {
            match adjust_indent(st1, w) {
                Ok(st2) => lex_from(s, LexState { idx: j, line_start: false, ..st2 }),
                Err(e) => Err(e),
            }
        }
    } else if st.idx == s.len() {
        Ok(finish(st))
    } else {
        match char_step(s, st) {
            LexStep::Next(st2) => if st.idx < st2.idx <= s.len() {
                lex_from(s, st2)
            } else {
                Err(LexerError::UnterminatedString { line: 0 })
            },
            LexStep::Stop(r) => r,
        }
    }
}

pub open spec fn initial_state() -> LexState {
    LexState {
        idx: 0,
        line: 0,
        pos: 0,
        last: 0,
        indents: seq![0int],
        line_start: true,
        toks: Seq::empty(),
    }
}

/// What lexing the characters `s` gives.
pub open spec fn lex(s: Seq<char>) -> Result<Seq<TokenV>, LexerError> {
    lex_from(s, initial_state())
}


/// Every token list the lexer produces ends with `Eof`.
pub proof fn lemma_lex_from_ends_with_eof(s: Seq<char>, st: LexState)
    ensures
        lex_from(s, st) matches Ok(t) ==> t.len() > 0 && t.last().kind == TokenKind::Eof,
    decreases s.len() - st.idx, if st.line_start { 1int } else { 0int },
{
    if st.idx < 0 || st.idx > s.len() {
    } else if st.line_start {
        let j = scan_end(s, st.idx, ws_pred());
        let w = j - st.idx;
        let st1 = after_ws(st, w);
        if j < st.idx || j > s.len() {
        } else if blank_at(s, j) {
            lemma_lex_from_ends_with_eof(s, LexState { idx: j, ..st1 });
        } else {
            match adjust_indent(st1, w) {
                Ok(st2) => lemma_lex_from_ends_with_eof(s, LexState { idx: j, line_start: false, ..st2 }),
                Err(e) => {},
            }
        }
    } else if st.idx == s.len() {
    } else {
        match char_step(s, st) {
            LexStep::Next(st2) => if st.idx < st2.idx <= s.len() {
                lemma_lex_from_ends_with_eof(s, st2);
            },
            LexStep::Stop(r) => {},
        }
    }
}

/// Law: when lexing succeeds, the last token is `Eof`.
pub proof fn law_lex_ends_with_eof(s: Seq<char>)
    ensures
        lex(s) matches Ok(t) ==> t.len() > 0 && t.last().kind == TokenKind::Eof,
{
    lemma_lex_from_ends_with_eof(s, initial_state());
}

#[derive(Clone, Copy)]
pub enum ScanKind {
    Ws,
    Digit,
    Ident,
    Str,
    Line,
    Nl,
}

pub open spec fn pred_of(k: ScanKind) -> spec_fn(char) -> bool {
    match k {
        ScanKind::Ws => ws_pred(),
        ScanKind::Digit => digit_pred(),
        ScanKind::Ident => ident_pred(),
        ScanKind::Str => string_pred(),
        ScanKind::Line => line_pred(),
        ScanKind::Nl => nl_pred(),
    }
}

fn holds(k: ScanKind, c: char) -> (r: bool)
    ensures
        r == pred_of(k)(c),
{
    match k {
        ScanKind::Ws => c == ' ' || c == '\t',
        ScanKind::Digit => ascii_digit(c),
        ScanKind::Ident => ident_char(c),
        ScanKind::Str => c != '"' && c != '\n',
        ScanKind::Line => c != '\n',
        ScanKind::Nl => c == '\n',
    }
}

/// The text of the number `s[st..e]`, whose integer digits end at `d`.
fn number_literal(s: &Vec<char>, st: usize, d: usize, e: usize) -> (r: String)
    requires
        st < d <= e <= s@.len(),
        d == scan_end(s@, st + 1, digit_pred()),
        e == d || (s@[d as int] == '.' && e == scan_end(s@, d + 1, digit_pred())),
    ensures
        r@ == number_text(s@, st as int, e as int),
{
    let mut a = st;
    while a + 1 < d && s[a] == '0'
        invariant
            st <= a < d <= s@.len(),
            first_kept(s@, a as int, d as int) == first_kept(s@, st as int, d as int),
        decreases d - a,
    {
        a = a + 1;
    }
    let mut b = e;
    while b > d && b - 1 > d && s[b - 1] == '0'
        invariant
            d < b <= e || b == e,
            b <= e <= s@.len(),
            d <= b,
            last_kept(s@, d + 1, b as int) == last_kept(s@, d + 1, e as int),
        decreases b,
    {
        b = b - 1;
    }
    let mut out: Vec<char> = Vec::new();
    let mut i = a;
    while i < d
        invariant
            a <= i <= d <= s@.len(),
            out@ == s@.subrange(a as int, i as int),
        decreases d - i,
    {
        out.push(s[i]);
        i = i + 1;
    }
    if b > d && b - 1 > d {
        out.push('.');
        let mut j = d + 1;
        while j < b
            invariant
                d + 1 <= j <= b <= s@.len(),
                out@ == s@.subrange(a as int, d as int) + seq!['.'] + s@.subrange(d + 1, j as int),
            decreases b - j,
        {
            out.push(s[j]);
            j = j + 1;
        }
    }
    string_from_chars(out.as_slice())
}

fn scan(s: &Vec<char>, i: usize, k: ScanKind) -> (j: usize)
    requires
        i <= s@.len(),
    ensures
        j == scan_end(s@, i as int, pred_of(k)),
        i <= j <= s@.len(),
{
    let mut j = i;
    while j < s.len() && holds(k, s[j])
        invariant
            i <= j <= s@.len(),
            scan_end(s@, j as int, pred_of(k)) == scan_end(s@, i as int, pred_of(k)),
        decreases s@.len() - j,
    {
        j = j + 1;
    }
    j
}

fn single_kind_of(c: char) -> (r: Option<TokenKind>)
    ensures
        r == single_kind(c),
{
    if c == '(' {
        Some(TokenKind::LParen)
    } else if c == ')' {
        Some(TokenKind::RParen)
    } else if c == '{' {
        Some(TokenKind::LBrace)
    } else if c == '}' {
        Some(TokenKind::RBrace)
    } else if c == '[' {
        Some(TokenKind::LBrack)
    } else if c == ']' {
        Some(TokenKind::RBrack)
    } else if c == ',' {
        Some(TokenKind::Comma)
    } else if c == ';' {
        Some(TokenKind::Semicolon)
    } else if c == ':' {
        Some(TokenKind::Colon)
    } else if c == '*' {
        Some(TokenKind::Asterisk)
    } else {
        None
    }
}

fn pair_kind_of(c: char) -> (r: Option<(char, TokenKind, TokenKind)>)
    ensures
        r == pair_kind(c),
{
    if c == '.' {
        Some(('.', TokenKind::DotDot, TokenKind::Dot))
    } else if c == '-' {
        Some(('-', TokenKind::Decr, TokenKind::Minus))
    } else if c == '+' {
        Some(('+', TokenKind::Incr, TokenKind::Plus))
    } else if c == '!' {
        Some(('=', TokenKind::BangEqual, TokenKind::Bang))
    } else if c == '=' {
        Some(('=', TokenKind::EqualEqual, TokenKind::Equal))
    } else if c == '<' {
        Some(('=', TokenKind::LessEqual, TokenKind::Less))
    } else if c == '>' {
        Some(('=', TokenKind::GreaterEqual, TokenKind::Greater))
    } else {
        None
    }
}

fn keyword_kind(t: &String) -> (r: Option<TokenKind>)
    ensures
        r == keyword_of(t@),
{
    if text_is(t, "and") {
        Some(TokenKind::And)
    } else if text_is(t, "def") {
        Some(TokenKind::Def)
    } else if text_is(t, "else") {
        Some(TokenKind::Else)
    } else if text_is(t, "false") {
        Some(TokenKind::False)
    } else if text_is(t, "for") {
        Some(TokenKind::For)
    } else if text_is(t, "if") {
        Some(TokenKind::If)
    } else if text_is(t, "in") {
        Some(TokenKind::In)
    } else if text_is(t, "let") {
        Some(TokenKind::Let)
    } else if text_is(t, "not") {
        Some(TokenKind::Not)
    } else if text_is(t, "null") {
        Some(TokenKind::Null)
    } else if text_is(t, "or") {
        Some(TokenKind::Or)
    } else if text_is(t, "print") {
        Some(TokenKind::Print)
    } else if text_is(t, "return") {
        Some(TokenKind::Return)
    } else if text_is(t, "step") {
        Some(TokenKind::Step)
    } else if text_is(t, "true") {
        Some(TokenKind::True)
    } else if text_is(t, "while") {
        Some(TokenKind::While)
    } else {
        None
    }
}

fn empty_text() -> (r: String)
    ensures
        r@ == Seq::<char>::empty(),
{
    String::new()
}

pub proof fn lemma_tokens_view_push(v: Seq<Token>, t: Token)
    ensures
        tokens_view(v.push(t)) == tokens_view(v).push(t@),
{
    assert(tokens_view(v.push(t)) =~= tokens_view(v).push(t@));
}

pub proof fn lemma_append_push<A>(a: Seq<A>, b: Seq<A>, x: A)
    ensures
        (a + b).push(x) == a + b.push(x),
{
    assert((a + b).push(x) =~= a + b.push(x));
}

pub enum CharOut {
    Go,
    Done,
    Fail(LexerError),
}

pub struct Lexer {
    input: Vec<char>,
    idx: usize,
    pub tokens: Vec<Token>,
    line: usize,
    pos: usize,
    last: usize,
    indents: Vec<usize>,
    line_start: bool,
}

impl Lexer {
    /// The characters being lexed.
    pub closed spec fn source(&self) -> Seq<char> {
        self.input@
    }

    pub closed spec fn state(&self) -> LexState {
        LexState {
            idx: self.idx as int,
            line: self.line as int,
            pos: self.pos as int,
            last: self.last as int,
            indents: Seq::new(self.indents@.len(), |i: int| self.indents@[i] as int),
            line_start: self.line_start,
            toks: tokens_view(self.tokens@),
        }
    }

    /// The lexer is ready to run from its start on its source.
    pub closed spec fn fresh(&self) -> bool {
        self.state() == initial_state()
    }

    closed spec fn inv(&self) -> bool {
        &&& self.idx <= self.input@.len()
        &&& self.pos <= self.idx
        &&& self.line <= self.idx
        &&& self.last <= self.idx
        &&& self.indents@.len() >= 1
        &&& self.indents@[0] == 0
        &&& forall|i: int| 0 <= i < self.indents@.len() ==> self.indents@[i] <= self.idx
    }

    pub fn new(input: &str) -> (r: Self)
        ensures
            r.source() == input@,
            r.fresh(),
    {
        let mut indents: Vec<usize> = Vec::new();
        indents.push(0);
        let r = Lexer {
            input: chars_of(input),
            idx: 0,
            tokens: Vec::new(),
            line: 0,
            pos: 0,
            last: 0,
            indents,
            line_start: true,
        };
        assert(r.state().indents =~= seq![0int]);
        assert(r.state().toks =~= Seq::<TokenV>::empty());
        r
    }

    fn push_token(&mut self, kind: TokenKind, curr_pos: usize)
        ensures
            final(self).state() == (LexState {
                toks: old(self).state().toks.push(
                    mk_tok(kind, curr_pos as int, old(self).pos as int, Seq::empty(), old(self).line as int),
                ),
                ..old(self).state()
            }),
            final(self).input == old(self).input,
            final(self).idx == old(self).idx,
            final(self).pos == old(self).pos,
            final(self).line == old(self).line,
            final(self).last == old(self).last,
            final(self).indents == old(self).indents,
            final(self).line_start == old(self).line_start,
    {
        let t = Token::new(kind, TextSpan::new(curr_pos, self.pos, empty_text()), self.line);
        self.tokens.push(t);
        assert(self.state().toks =~= old(self).state().toks.push(
            mk_tok(kind, curr_pos as int, old(self).pos as int, Seq::empty(), old(self).line as int)));
    }

    fn push_literal_token(&mut self, kind: TokenKind, literal: String, curr_pos: usize)
        ensures
            final(self).state() == (LexState {
                toks: old(self).state().toks.push(
                    mk_tok(kind, curr_pos as int, old(self).pos as int, literal@, old(self).line as int),
                ),
                ..old(self).state()
            }),
            final(self).input == old(self).input,
            final(self).idx == old(self).idx,
            final(self).pos == old(self).pos,
            final(self).line == old(self).line,
            final(self).last == old(self).last,
            final(self).indents == old(self).indents,
            final(self).line_start == old(self).line_start,
    {
        let t = Token::new(kind, TextSpan::new(curr_pos, self.pos, literal), self.line);
        self.tokens.push(t);
        assert(self.state().toks =~= old(self).state().toks.push(
            mk_tok(kind, curr_pos as int, old(self).pos as int, literal@, old(self).line as int)));
    }

    /// Consumes the next character when it is `c`.
    fn check_next(&mut self, c: char) -> (r: bool)
        requires
            old(self).inv(),
        ensures
            r == (old(self).idx < old(self).input@.len() && old(self).input@[old(self).idx as int] == c),
            r ==> final(self).state() == (LexState {
                idx: old(self).state().idx + 1,
                pos: old(self).state().pos + 1,
                ..old(self).state()
            }),
            !r ==> final(self).state() == old(self).state(),
            final(self).input == old(self).input,
            final(self).inv(),
    {
        if self.idx < self.input.len() && self.input[self.idx] == c {
            self.idx = self.idx + 1;
            self.pos = self.pos + 1;
            proof {
                assert forall|i: int| 0 <= i < self.indents@.len() implies self.indents@[i] <= self.idx by {
                }
            }
            true
        } else {
            false
        }
    }

    /// Whether `c` starts a number.
    fn is_digit(&self, c: char) -> (r: bool)
        ensures
            r == is_ascii_digit(c),
    {
        ascii_digit(c)
    }

    /// Whether `c` can stand in an identifier.
    fn is_alpha(&self, c: char) -> (r: bool)
        ensures
            r == is_ident_char(c),
    {
        ident_char(c)
    }

    /// Reads the rest of an identifier or keyword whose first character was
    /// just consumed; gives its kind and, for an identifier, its text.
    fn consume_identifier(&mut self) -> (r: (TokenKind, Option<String>))
        requires
            old(self).inv(),
            old(self).idx >= 1,
        ensures
            ({
                let e = scan_end(old(self).input@, old(self).idx as int, ident_pred());
                let text = old(self).input@.subrange(old(self).idx - 1, e);
                &&& final(self).state() == (LexState {
                    idx: e,
                    pos: old(self).pos + (e - old(self).idx),
                    ..old(self).state()
                })
                &&& match keyword_of(text) {
                    Some(k) => r.0 == k && r.1 is None,
                    None => r.0 == TokenKind::Identifier && r.1 is Some && r.1->0@ == text,
                }
            }),
            final(self).input == old(self).input,
            final(self).inv(),
            final(self).idx >= old(self).idx,
    {
        let start = self.idx - 1;
        let e = scan(&self.input, self.idx, ScanKind::Ident);
        self.pos = self.pos + (e - self.idx);
        self.idx = e;
        let text = string_from_range(self.input.as_slice(), start, e);
        match keyword_kind(&text) {
            Some(k) => (k, None),
            None => (TokenKind::Identifier, Some(text)),
        }
    }

    proof fn lemma_indents_view_push(&self, w: usize)
        ensures
            Seq::new(self.indents@.push(w).len(), |i: int| self.indents@.push(w)[i] as int)
                == Seq::new(self.indents@.len(), |i: int| self.indents@[i] as int).push(w as int),
    {
        assert(Seq::new(self.indents@.push(w).len(), |i: int| self.indents@.push(w)[i] as int)
            =~= Seq::new(self.indents@.len(), |i: int| self.indents@[i] as int).push(w as int));
    }

    /// Appends the `Dedent` tokens for the open levels and the `Eof` token.
    fn finish_tokens(&mut self)
        requires
            old(self).inv(),
        ensures
            tokens_view(final(self).tokens@) == finish(old(self).state()),
    {
        let ghost st = self.state();
        let ghost toks0 = tokens_view(self.tokens@);
        let n = self.indents.len() - 1;
        let mut k: usize = 0;
        while k < n
            invariant
                k <= n,
                n == st.indents.len() - 1,
                self.pos == st.pos,
                self.line == st.line,
                self.last == st.last,
                tokens_view(self.tokens@) == toks0 + dedent_toks(k as nat, st.pos, st.line),
            decreases n - k,
        {
            let t = Token::new(TokenKind::Dedent, TextSpan::new(self.pos, self.pos, empty_text()), self.line);
            let ghost tv = t@;
            let ghost before = self.tokens@;
            self.tokens.push(t);
            proof {
                lemma_tokens_view_push(before, t);
                assert(tv == mk_tok(TokenKind::Dedent, st.pos, st.pos, Seq::empty(), st.line));
                lemma_append_push(toks0, dedent_toks(k as nat, st.pos, st.line), tv);
            }
            k = k + 1;
        }
        let t = Token::new(TokenKind::Eof, TextSpan::new(self.last, self.pos, empty_text()), self.line);
        self.tokens.push(t);
        assert(tokens_view(self.tokens@) =~= finish(st));
    }

    /// The step at the start of a line: measures the indentation and, on a
    /// line that holds code, opens or closes indentation levels.
    fn line_start_step(&mut self) -> (r: Result<(), LexerError>)
        requires
            old(self).inv(),
            old(self).line_start,
        ensures
            final(self).input == old(self).input,
            ({
                let st = old(self).state();
                let s = old(self).input@;
                let j = scan_end(s, st.idx, ws_pred());
                let w = j - st.idx;
                let st1 = after_ws(st, w);
                if blank_at(s, j) {
                    r is Ok && final(self).state() == LexState { idx: j, ..st1 }
                } else {
                    match adjust_indent(st1, w) {
                        Ok(st2) => r is Ok && final(self).state() == LexState { idx: j, line_start: false, ..st2 },
                        Err(e) => r == Err::<(), LexerError>(e),
                    }
                }
            }),
            r is Ok ==> final(self).inv(),
    {
        let ghost st = self.state();
        let j = scan(&self.input, self.idx, ScanKind::Ws);
        let w = j - self.idx;
        if w > 0 {
            self.last = self.pos + w - 1;
        }
        self.pos = self.pos + w;
        self.line_start = false;
        let ghost st1 = self.state();
        assert(st1 == after_ws(st, w as int));
        let blank = j >= self.input.len() || self.input[j] == '\n' || self.input[j] == '\r'
            || (self.input[j] == '/' && j + 1 < self.input.len() && self.input[j + 1] == '/');
        if !blank {
            let top = self.indents[self.indents.len() - 1];
            if w > top {
                proof {
                    self.lemma_indents_view_push(w);
                }
                self.indents.push(w);
                self.push_token(TokenKind::Indent, self.pos);
            } else if w < top {
                let ghost ind0 = st1.indents;
                let ghost toks0 = st1.toks;
                let mut n: usize = 0;
                assert(ind0.len() == self.indents@.len());
                while self.indents[self.indents.len() - 1] > w
                    invariant
                        self.indents@.len() >= 1,
                        self.indents@[0] == 0,
                        n <= ind0.len() - 1,
                        self.indents@.len() == ind0.len() - n,
                        forall|i: int| 0 <= i < self.indents@.len() ==> self.indents@[i] == ind0[i],
                        pop_deeper(Seq::new(self.indents@.len(), |i: int| self.indents@[i] as int), w as int)
                            == pop_deeper(ind0, w as int),
                        tokens_view(self.tokens@) == toks0 + dedent_toks(n as nat, st1.pos, st1.line),
                        self.pos == st1.pos,
                        self.line == st1.line,
                        self.idx == st.idx,
                        self.last == st1.last,
                        !self.line_start,
                        self.input == old(self).input,
                        w as int <= j,
                        j <= self.input@.len(),
                        ind0.len() <= usize::MAX,
                        forall|i: int| 0 <= i < self.indents@.len() ==> self.indents@[i] <= j,
                    decreases self.indents@.len(),
                {
                    let ghost before = Seq::new(self.indents@.len(), |i: int| self.indents@[i] as int);
                    assert(self.indents@.len() >= 2) by {
                        if self.indents@.len() == 1 {
                            assert(self.indents@[self.indents@.len() - 1] == 0);
                        }
                    }
                    self.indents.pop();
                    assert(Seq::new(self.indents@.len(), |i: int| self.indents@[i] as int) =~= before.drop_last());
                    let t = Token::new(TokenKind::Dedent, TextSpan::new(self.pos, self.pos, empty_text()), self.line);
                    let ghost tv = t@;
                    let ghost tbefore = self.tokens@;
                    self.tokens.push(t);
                    proof {
                        lemma_tokens_view_push(tbefore, t);
                        assert(tv == mk_tok(TokenKind::Dedent, st1.pos, st1.pos, Seq::empty(), st1.line));
                        lemma_append_push(toks0, dedent_toks(n as nat, st1.pos, st1.line), tv);
                    }
                    n = n + 1;
                }
                let ghost p = Seq::new(self.indents@.len(), |i: int| self.indents@[i] as int);
                assert(pop_deeper(p, w as int) == p);
                if self.indents[self.indents.len() - 1] != w {
                    return Err(LexerError::InvalidIndentation { line: self.line, col: w });
                }
            }
        }
        self.idx = j;
        proof {
            assert forall|i: int| 0 <= i < self.indents@.len() implies self.indents@[i] <= self.idx by {
            }
        }
        Ok(())
    }

    /// One step on the next character of a line.
    fn step_char(&mut self) -> (r: CharOut)
        requires
            old(self).inv(),
            !old(self).line_start,
            old(self).idx < old(self).input@.len(),
        ensures
            final(self).input == old(self).input,
            match char_step(old(self).input@, old(self).state()) {
                LexStep::Next(st2) => r is Go && final(self).state() == st2 && final(self).inv() && st2.idx
                    > old(self).idx,
                LexStep::Stop(Ok(t)) => r is Done && finish(final(self).state()) == t && final(self).inv(),
                LexStep::Stop(Err(e)) => r == CharOut::Fail(e),
            },
    {
        let ghost s = self.input@;
        let ghost st = self.state();
        let len = self.input.len();
        let c = self.input[self.idx];
        let curr = self.pos;
        self.idx = self.idx + 1;
        self.pos = self.pos + 1;
        self.last = curr;
        let ghost st1 = self.state();
        assert(st1 == LexState { idx: st.idx + 1, pos: st.pos + 1, last: curr as int, ..st });
        proof {
            assert forall|i: int| 0 <= i < self.indents@.len() implies self.indents@[i] <= self.idx by {
            }
        }
        let sk = single_kind_of(c);
        if let Some(k) = sk {
            self.push_token(k, curr);
            return CharOut::Go;
        }
        let pk = pair_kind_of(c);
        if let Some((second, two, one)) = pk {
            if self.check_next(second) {
                self.push_token(two, curr);
            } else {
                self.push_token(one, curr);
            }
            return CharOut::Go;
        }
        if c == '\r' {
            let e = scan(&self.input, self.idx, ScanKind::Nl);
            self.pos = self.pos + (e - self.idx);
            self.idx = e;
            proof {
                assert forall|i: int| 0 <= i < self.indents@.len() implies self.indents@[i] <= self.idx by {
                }
            }
            if e >= self.input.len() {
                return CharOut::Done;
            }
            self.line = self.line + 1;
            self.pos = 0;
            self.line_start = true;
            return CharOut::Go;
        }
        if c == '\n' {
            self.line = self.line + 1;
            self.pos = 0;
            self.line_start = true;
            return CharOut::Go;
        }
        if c == ' ' || c == '\t' {
            return CharOut::Go;
        }
        if c == '/' {
            if self.idx < self.input.len() && self.input[self.idx] == '/' {
                let e = scan(&self.input, self.idx + 1, ScanKind::Line);
                if e < self.input.len() {
                    self.idx = e + 1;
                    self.line = self.line + 1;
                    self.pos = 0;
                    self.line_start = true;
                } else {
                    self.pos = self.pos + 1 + (e - (self.idx + 1));
                    self.idx = e;
                }
                proof {
                    assert forall|i: int| 0 <= i < self.indents@.len() implies self.indents@[i] <= self.idx by {
                    }
                }
            } else {
                self.push_token(TokenKind::FSlash, curr);
            }
            return CharOut::Go;
        }
        if c == '"' {
            let e = scan(&self.input, self.idx, ScanKind::Str);
            if e < self.input.len() && self.input[e] == '"' {
                let literal = string_from_range(self.input.as_slice(), self.idx, e);
                self.pos = self.pos + (e + 1 - self.idx);
                self.idx = e + 1;
                proof {
                    assert forall|i: int| 0 <= i < self.indents@.len() implies self.indents@[i] <= self.idx by {
                    }
                }
                self.push_literal_token(TokenKind::String, literal, curr);
                return CharOut::Go;
            } else {
                return CharOut::Fail(LexerError::UnterminatedString { line: self.line });
            }
        }
        if self.is_digit(c) {
            let start = self.idx - 1;
            let d = scan(&self.input, self.idx, ScanKind::Digit);
            let e = if d < self.input.len() && self.input[d] == '.' && !(d + 1 < self.input.len()
                && self.input[d + 1] == '.') {
                scan(&self.input, d + 1, ScanKind::Digit)
            } else {
                d
            };
            assert(e == number_end(s, st1.idx));
            let literal = number_literal(&self.input, start, d, e);
            self.pos = self.pos + (e - self.idx);
            self.idx = e;
            proof {
                assert forall|i: int| 0 <= i < self.indents@.len() implies self.indents@[i] <= self.idx by {
                }
            }
            self.push_literal_token(TokenKind::Num, literal, curr);
            return CharOut::Go;
        }
        if self.is_alpha(c) {
            let (kind, text) = self.consume_identifier();
            match text {
                Some(t) => self.push_literal_token(kind, t, curr),
                None => self.push_token(kind, curr),
            }
            return CharOut::Go;
        }
        CharOut::Fail(LexerError::UnexpectedSymbol { line: self.line, symbol: c })
    }

    /// Turns the input into tokens, ending with `Eof`.
    pub fn tokenise(self) -> (r: Result<Vec<Token>, CompileError>)
        requires
            self.fresh(),
        ensures
            r is Ok ==> lex(self.source()) == Ok::<Seq<TokenV>, LexerError>(tokens_view(r->Ok_0@)),
            r is Err ==> r->Err_0 is Lexer && lex(self.source()) == Err::<Seq<TokenV>, LexerError>(
                r->Err_0->Lexer_0,
            ),
    {
        let ghost src = self.source();
        let mut lx = self;
        let r = lx.run();
        r
    }

    fn run(&mut self) -> (r: Result<Vec<Token>, CompileError>)
        requires
            old(self).fresh(),
        ensures
            r is Ok ==> lex(old(self).source()) == Ok::<Seq<TokenV>, LexerError>(tokens_view(r->Ok_0@)),
            r is Err ==> r->Err_0 is Lexer && lex(old(self).source()) == Err::<Seq<TokenV>, LexerError>(
                r->Err_0->Lexer_0,
            ),
    {
        let lx = self;
        let ghost s = lx.input@;
        let ghost target = lex(s);
        proof {
            assert(lx.state().indents.len() == 1);
        }
        loop
            invariant
                lx.inv(),
                lx.input@ == s,
                s == old(self).input@,
                target == lex(s),
                lex_from(s, lx.state()) == target,
            decreases s.len() - lx.idx, if lx.line_start { 1int } else { 0int },
        {
            let ghost st = lx.state();
            if lx.line_start {
                let r = lx.line_start_step();
                proof {
                    lemma_scan_end(s, st.idx, ws_pred());
                }
                match r {
                    Ok(()) => {
                        assert(lex_from(s, st) == lex_from(s, lx.state()));
                    },
                    Err(e) => {
                        assert(lex_from(s, st) == Err::<Seq<TokenV>, LexerError>(e));
                        return Err(CompileError::Lexer(e));
                    },
                }
            } else if lx.idx == lx.input.len() {
                assert(lex_from(s, st) == Ok::<Seq<TokenV>, LexerError>(finish(st)));
                lx.finish_tokens();
                assert(target == Ok::<Seq<TokenV>, LexerError>(tokens_view(lx.tokens@)));
                let mut toks: Vec<Token> = Vec::new();
                        std::mem::swap(&mut toks, &mut lx.tokens);
                        return Ok(toks);
            } else {
                let r = lx.step_char();
                match r {
                    CharOut::Go => {
                        assert(lex_from(s, st) == lex_from(s, lx.state()));
                    },
                    CharOut::Done => {
                        let ghost st2 = lx.state();
                        assert(lex_from(s, st) == Ok::<Seq<TokenV>, LexerError>(finish(st2)));
                        lx.finish_tokens();
                        let mut toks: Vec<Token> = Vec::new();
                        std::mem::swap(&mut toks, &mut lx.tokens);
                        return Ok(toks);
                    },
                    CharOut::Fail(e) => {
                        assert(lex_from(s, st) == Err::<Seq<TokenV>, LexerError>(e));
                        return Err(CompileError::Lexer(e));
                    },
                }
            }
        }
    }
}

} // verus!
