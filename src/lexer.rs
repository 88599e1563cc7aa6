use vstd::prelude::*;
use vstd::string::StrSliceExecFns;
use crate::token::{Token, TokenType, TokenView};

verus! {

/// Why the source text could not be split into tokens.
#[derive(Debug, Clone, PartialEq)]
pub enum LexError {
    /// A character that starts no token, or a lone `&` or `|`.
    UnexpectedChar { ch: char, line: usize, column: usize },
    /// A run of digits whose value does not fit in an `i64`.
    InvalidNumber { line: usize, column: usize },
}

pub open spec fn is_digit(c: char) -> bool {
    '0' <= c && c <= '9'
}

pub open spec fn is_ident_start(c: char) -> bool {
    ('a' <= c && c <= 'z') || ('A' <= c && c <= 'Z') || c == '_'
}

pub open spec fn is_ident_char(c: char) -> bool {
    is_ident_start(c) || is_digit(c)
}

pub open spec fn is_space(c: char) -> bool {
    c == ' ' || c == '\t' || c == '\r' || c == '\n'
}

pub open spec fn digit_value(c: char) -> int {
    (c as int) - ('0' as int)
}

/// The value of a run of decimal digits.
pub open spec fn digits_value(w: Seq<char>) -> int
    decreases w.len(),
{
    if w.len() == 0 {
        0
    } else {
        digits_value(w.drop_last()) * 10 + digit_value(w.last())
    }
}

/// The first index at or after `i` that does not hold a digit.
pub open spec fn digits_end(s: Seq<char>, i: int) -> int
    decreases s.len() - i,
{
    if 0 <= i < s.len() && is_digit(s[i]) {
        digits_end(s, i + 1)
    } else {
        i
    }
}

/// The first index at or after `i` that does not hold an identifier character.
pub open spec fn ident_end(s: Seq<char>, i: int) -> int
    decreases s.len() - i,
{
    if 0 <= i < s.len() && is_ident_char(s[i]) {
        ident_end(s, i + 1)
    } else {
        i
    }
}

/// The reserved word spelt by `w`, if any.
pub open spec fn keyword_of(w: Seq<char>) -> Option<TokenType> {
    if w == seq!['f', 'u', 'n', 'c'] {
        Some(TokenType::Func)
    } else if w == seq!['l', 'e', 't'] {
        Some(TokenType::Let)
    } else if w == seq!['i', 'f'] {
        Some(TokenType::If)
    } else if w == seq!['e', 'l', 's', 'e'] {
        Some(TokenType::Else)
    } else if w == seq!['w', 'h', 'i', 'l', 'e'] {
        Some(TokenType::While)
    } else if w == seq!['r', 'e', 't', 'u', 'r', 'n'] {
        Some(TokenType::Return)
    } else {
        None
    }
}

/// The token that a single character makes on its own.
pub open spec fn single_char_token(c: char) -> Option<TokenType> {
    if c == '(' {
        Some(TokenType::LParen)
    } else if c == ')' {
        Some(TokenType::RParen)
    } else if c == '{' {
        Some(TokenType::LBrace)
    } else if c == '}' {
        Some(TokenType::RBrace)
    } else if c == ',' {
        Some(TokenType::Comma)
    } else if c == ';' {
        Some(TokenType::Semicolon)
    } else if c == '+' {
        Some(TokenType::Plus)
    } else if c == '-' {
        Some(TokenType::Minus)
    } else if c == '*' {
        Some(TokenType::Star)
    } else if c == '/' {
        Some(TokenType::Slash)
    } else if c == '%' {
        Some(TokenType::Percent)
    } else {
        None
    }
}

/// The cursor `(position, line, column)` after the whitespace that starts at `pos`.
pub open spec fn skip_ws(s: Seq<char>, pos: int, line: int, col: int) -> (int, int, int)
    decreases s.len() - pos,
{
    if 0 <= pos < s.len() && is_space(s[pos]) {
        if s[pos] == '\n' {
            skip_ws(s, pos + 1, line + 1, 1)
        } else {
            skip_ws(s, pos + 1, line, col + 1)
        }
    } else {
        (pos, line, col)
    }
}

/// True when `s[p + 1]` exists and is `c`.
pub open spec fn next_is(s: Seq<char>, p: int, c: char) -> bool {
    p + 1 < s.len() && s[p + 1] == c
}

/// The token that starts at `p` (a non-whitespace character), with the index just past it.
pub open spec fn scan_token(s: Seq<char>, p: int, line: int, col: int) -> Result<
    (TokenView, int),
    LexError,
> {
    let c = s[p];
    let bad = LexError::UnexpectedChar { ch: c, line: line as usize, column: col as usize };
    if single_char_token(c) is Some {
        Ok((TokenView::Other(single_char_token(c)->0), p + 1))
    } else if c == '=' {
        if next_is(s, p, '=') {
            Ok((TokenView::Other(TokenType::Eq), p + 2))
        } else {
            Ok((TokenView::Other(TokenType::Assign), p + 1))
        }
    } else if c == '!' {
        if next_is(s, p, '=') {
            Ok((TokenView::Other(TokenType::Ne), p + 2))
        } else {
            Ok((TokenView::Other(TokenType::Bang), p + 1))
        }
    } else if c == '<' {
        if next_is(s, p, '=') {
            Ok((TokenView::Other(TokenType::Le), p + 2))
        } else {
            Ok((TokenView::Other(TokenType::Lt), p + 1))
        }
    } else if c == '>' {
        if next_is(s, p, '=') {
            Ok((TokenView::Other(TokenType::Ge), p + 2))
        } else {
            Ok((TokenView::Other(TokenType::Gt), p + 1))
        }
    } else if c == '&' {
        if next_is(s, p, '&') {
            Ok((TokenView::Other(TokenType::And), p + 2))
        } else {
            Err(bad)
        }
    } else if c == '|' {
        if next_is(s, p, '|') {
            Ok((TokenView::Other(TokenType::Or), p + 2))
        } else {
            Err(bad)
        }
    } else if is_digit(c) {
        let e = digits_end(s, p);
        let v = digits_value(s.subrange(p, e));
        if v <= i64::MAX {
            Ok((TokenView::Other(TokenType::Number(v as i64)), e))
        } else {
            Err(LexError::InvalidNumber { line: line as usize, column: col as usize })
        }
    } else if is_ident_start(c) {
        let e = ident_end(s, p);
        let w = s.subrange(p, e);
        match keyword_of(w) {
            Some(k) => Ok((TokenView::Other(k), e)),
            None => Ok((TokenView::Ident(w), e)),
        }
    } else {
        Err(bad)
    }
}

/// The tokens of `s` from the cursor `(pos, line, col)` on, ending with one end-of-input token.
pub open spec fn lex_from(s: Seq<char>, pos: int, line: int, col: int) -> Result<
    Seq<(TokenView, int, int)>,
    LexError,
>
    decreases s.len() - pos,
{
    let (p, l, c) = skip_ws(s, pos, line, col);
    if !(pos <= p) || p >= s.len() {
        Ok(seq![(TokenView::Other(TokenType::Eof), l, c)])
    } else {
        match scan_token(s, p, l, c) {
            Err(e) => Err(e),
            Ok((t, np)) => if p < np <= s.len() {
                match lex_from(s, np, l, c + (np - p)) {
                    Ok(rest) => Ok(seq![(t, l, c)] + rest),
                    Err(e) => Err(e),
                }
            } else {
                Err(LexError::InvalidNumber { line: l as usize, column: c as usize })
            },
        }
    }
}

/// The tokens of a whole source text.
pub open spec fn lex(s: Seq<char>) -> Result<Seq<(TokenView, int, int)>, LexError> {
    lex_from(s, 0, 1, 1)
}

pub open spec fn tokens_view(ts: Seq<Token>) -> Seq<(TokenView, int, int)> {
    ts.map_values(|t: Token| t@)
}

pub open spec fn lex_result_view(r: Result<Vec<Token>, LexError>) -> Result<
    Seq<(TokenView, int, int)>,
    LexError,
> {
    match r {
        Ok(ts) => Ok(tokens_view(ts@)),
        Err(e) => Err(e),
    }
}

pub proof fn lemma_skip_ws(s: Seq<char>, pos: int, line: int, col: int)
    requires
        0 <= pos,
    ensures
        pos <= skip_ws(s, pos, line, col).0,
        skip_ws(s, pos, line, col).0 < s.len() ==> !is_space(s[skip_ws(s, pos, line, col).0]),
    decreases s.len() - pos,
{
    if 0 <= pos < s.len() && is_space(s[pos]) {
        if s[pos] == '\n' {
            lemma_skip_ws(s, pos + 1, line + 1, 1);
        } else {
            lemma_skip_ws(s, pos + 1, line, col + 1);
        }
    }
}

pub proof fn lemma_digits_end(s: Seq<char>, i: int)
    requires
        0 <= i <= s.len(),
    ensures
        i <= digits_end(s, i) <= s.len(),
        forall|k: int| i <= k < digits_end(s, i) ==> is_digit(#[trigger] s[k]),
    decreases s.len() - i,
{
    if 0 <= i < s.len() && is_digit(s[i]) {
        lemma_digits_end(s, i + 1);
    }
}

pub proof fn lemma_ident_end(s: Seq<char>, i: int)
    requires
        0 <= i <= s.len(),
    ensures
        i <= ident_end(s, i) <= s.len(),
        forall|k: int| i <= k < ident_end(s, i) ==> is_ident_char(#[trigger] s[k]),
    decreases s.len() - i,
{
    if 0 <= i < s.len() && is_ident_char(s[i]) {
        lemma_ident_end(s, i + 1);
    }
}

/// A token that `scan_token` yields is never end-of-input.
pub proof fn lemma_scan_not_eof(s: Seq<char>, p: int, line: int, col: int)
    requires
        0 <= p < s.len(),
    ensures
        scan_token(s, p, line, col) is Ok ==> scan_token(s, p, line, col)->Ok_0.0 != TokenView::Other(
            TokenType::Eof,
        ),
{
}

/// Lexing ends with exactly one end-of-input token, and nothing before it is one.
pub proof fn lemma_lex_from_eof(s: Seq<char>, pos: int, line: int, col: int)
    requires
        0 <= pos,
    ensures
        lex_from(s, pos, line, col) is Ok ==> {
            let ts = lex_from(s, pos, line, col)->Ok_0;
            &&& ts.len() >= 1
            &&& ts.last().0 == TokenView::Other(TokenType::Eof)
            &&& forall|i: int| 0 <= i < ts.len() - 1 ==> (#[trigger] ts[i]).0 != TokenView::Other(
                TokenType::Eof,
            )
        },
    decreases s.len() - pos,
{
    let (p, l, c) = skip_ws(s, pos, line, col);
    lemma_skip_ws(s, pos, line, col);
    if pos <= p && p < s.len() {
        lemma_scan_not_eof(s, p, l, c);
        match scan_token(s, p, l, c) {
            Err(_) => {},
            Ok((t, np)) => {
                if p < np <= s.len() {
                    lemma_lex_from_eof(s, np, l, c + (np - p));
                    match lex_from(s, np, l, c + (np - p)) {
                        Ok(rest) => {
                            let ts = seq![(t, l, c)] + rest;
                            assert forall|i: int| 0 <= i < ts.len() - 1 implies (
                            #[trigger] ts[i]).0 != TokenView::Other(TokenType::Eof) by {
                                if i > 0 {
                                    assert(ts[i] == rest[i - 1]);
                                }
                            }
                            assert(ts.last() == rest.last());
                        },
                        Err(_) => {},
                    }
                }
            },
        }
    }
}

pub proof fn lemma_lex_ends_with_eof(s: Seq<char>)
    ensures
        lex(s) is Ok ==> {
            let ts = lex(s)->Ok_0;
            &&& ts.len() >= 1
            &&& ts.last().0 == TokenView::Other(TokenType::Eof)
            &&& forall|i: int| 0 <= i < ts.len() - 1 ==> (#[trigger] ts[i]).0 != TokenView::Other(
                TokenType::Eof,
            )
        },
{
    lemma_lex_from_eof(s, 0, 1, 1);
}

/// The 1-based `(line, column)` of index `i` of `s`.
pub open spec fn pos_of(s: Seq<char>, i: int) -> (int, int)
    decreases i,
{
    if i <= 0 {
        (1, 1)
    } else {
        let (l, c) = pos_of(s, i - 1);
        if s[i - 1] == '\n' {
            (l + 1, 1)
        } else {
            (l, c + 1)
        }
    }
}

proof fn lemma_skip_ws_pos(s: Seq<char>, pos: int, line: int, col: int)
    requires
        0 <= pos <= s.len(),
        (line, col) == pos_of(s, pos),
    ensures
        (skip_ws(s, pos, line, col).1, skip_ws(s, pos, line, col).2) == pos_of(
            s,
            skip_ws(s, pos, line, col).0,
        ),
    decreases s.len() - pos,
{
    if 0 <= pos < s.len() && is_space(s[pos]) {
        if s[pos] == '\n' {
            lemma_skip_ws_pos(s, pos + 1, line + 1, 1);
        } else {
            lemma_skip_ws_pos(s, pos + 1, line, col + 1);
        }
    }
}

proof fn lemma_pos_run(s: Seq<char>, p: int, q: int)
    requires
        0 <= p <= q <= s.len(),
        forall|k: int| p <= k < q ==> #[trigger] s[k] != '\n',
    ensures
        pos_of(s, q) == (pos_of(s, p).0, pos_of(s, p).1 + (q - p)),
    decreases q - p,
{
    if p < q {
        lemma_pos_run(s, p, q - 1);
    }
}

proof fn lemma_scan_run(s: Seq<char>, p: int, line: int, col: int)
    requires
        0 <= p < s.len(),
    ensures
        scan_token(s, p, line, col) is Ok ==> {
            let np = scan_token(s, p, line, col)->Ok_0.1;
            &&& p < np <= s.len()
            &&& forall|k: int| p <= k < np ==> #[trigger] s[k] != '\n'
        },
        scan_token(s, p, line, col) matches Err(LexError::UnexpectedChar { ch, line: l, column: c })
            ==> ch == s[p] && l == line as usize && c == col as usize,
{
    lemma_digits_end(s, p);
    lemma_digits_end(s, p + 1);
    lemma_ident_end(s, p);
    lemma_ident_end(s, p + 1);
}

proof fn lemma_lex_error_pos(s: Seq<char>, pos: int, line: int, col: int)
    requires
        0 <= pos <= s.len(),
        (line, col) == pos_of(s, pos),
    ensures
        lex_from(s, pos, line, col) matches Err(LexError::UnexpectedChar { ch, line: l, column: c })
            ==> exists|i: int|
            0 <= i < s.len() && s[i] == ch && (pos_of(s, i).0 as usize, pos_of(s, i).1 as usize)
                == (l, c),
    decreases s.len() - pos,
{
    let (p, l, c) = skip_ws(s, pos, line, col);
    lemma_skip_ws(s, pos, line, col);
    lemma_skip_ws_pos(s, pos, line, col);
    if pos <= p && p < s.len() {
        lemma_scan_run(s, p, l, c);
        match scan_token(s, p, l, c) {
            Err(e) => {
                if e is UnexpectedChar {
                    assert(s[p] == e->ch && (pos_of(s, p).0 as usize, pos_of(s, p).1 as usize) == (
                    e->UnexpectedChar_line, e->UnexpectedChar_column));
                }
            },
            Ok((t, np)) => {
                if p < np <= s.len() {
                    lemma_pos_run(s, p, np);
                    lemma_lex_error_pos(s, np, l, c + (np - p));
                }
            },
        }
    }
}

/// A character that no token admits is reported at its own line and column.
pub proof fn lemma_lex_error_position(s: Seq<char>)
    ensures
        lex(s) matches Err(LexError::UnexpectedChar { ch, line, column }) ==> exists|i: int|
            0 <= i < s.len() && s[i] == ch && (pos_of(s, i).0 as usize, pos_of(s, i).1 as usize)
                == (line, column),
{
    lemma_lex_error_pos(s, 0, 1, 1);
}

pub struct Lexer {
    input: Vec<char>,
    text: String,
    position: usize,
    line: usize,
    column: usize,
}

impl Lexer {
    /// The characters still to be read, with the ones already read.
    pub closed spec fn chars(&self) -> Seq<char> {
        self.input@
    }

    pub closed spec fn cursor(&self) -> (int, int, int) {
        (self.position as int, self.line as int, self.column as int)
    }

    pub closed spec fn wf(&self) -> bool {
        &&& self.text@ == self.input@
        &&& self.input.len() < usize::MAX
        &&& self.position <= self.input.len()
        &&& 1 <= self.line
        &&& 1 <= self.column
        &&& self.line + self.column <= self.position + 2
    }

    pub fn new(input: &str) -> (r: Self)
        requires
            input@.len() < usize::MAX,
        ensures
            r.wf(),
            r.chars() == input@,
            r.cursor() == (0int, 1int, 1int),
    {
        let n = input.unicode_len();
        let mut chars: Vec<char> = Vec::new();
        let mut i: usize = 0;
        while i < n
            invariant
                n == input@.len(),
                i <= n,
                chars@ == input@.subrange(0, i as int),
            decreases n - i,
        {
            chars.push(input.get_char(i));
            i = i + 1;
            assert(chars@ =~= input@.subrange(0, i as int));
        }
        assert(chars@ =~= input@);
        Lexer { input: chars, text: input.to_owned(), position: 0, line: 1, column: 1 }
    }

    pub fn tokenize(&mut self) -> (r: Result<Vec<Token>, LexError>)
        requires
            old(self).wf(),
        ensures
            lex_result_view(r) == lex_from(
                old(self).chars(),
                old(self).cursor().0,
                old(self).cursor().1,
                old(self).cursor().2,
            ),
    {
        let ghost s = self.input@;
        let ghost c0 = self.cursor();
        let mut tokens: Vec<Token> = Vec::new();
        loop
            invariant
                self.wf(),
                self.input@ == s,
                s == old(self).chars(),
                c0 == old(self).cursor(),
                lex_from(s, c0.0, c0.1, c0.2) == match lex_from(
                    s,
                    self.position as int,
                    self.line as int,
                    self.column as int,
                ) {
                    Ok(rest) => Ok(tokens_view(tokens@) + rest),
                    Err(e) => Err(e),
                },
            decreases s.len() - self.position,
        {
            let ghost pre = self.cursor();
            proof {
                lemma_skip_ws(s, self.position as int, self.line as int, self.column as int);
            }
            self.skip_whitespace();
            proof {
                reveal_with_fuel(lex_from, 1);
                assert(lex_from(s, pre.0, pre.1, pre.2) == {
                    let (p, l, c) = skip_ws(s, pre.0, pre.1, pre.2);
                    if !(pre.0 <= p) || p >= s.len() {
                        Ok(seq![(TokenView::Other(TokenType::Eof), l, c)])
                    } else {
                        match scan_token(s, p, l, c) {
                            Err(e) => Err(e),
                            Ok((t, np)) => if p < np <= s.len() {
                                match lex_from(s, np, l, c + (np - p)) {
                                    Ok(rest) => Ok(seq![(t, l, c)] + rest),
                                    Err(e) => Err(e),
                                }
                            } else {
                                Err(LexError::InvalidNumber { line: l as usize, column: c as usize })
                            },
                        }
                    }
                });
            }
            if self.is_at_end() {
                let ghost old_tokens = tokens@;
                tokens.push(Token::new(TokenType::Eof, self.line, self.column));
                proof {
                    assert(tokens_view(tokens@) =~= tokens_view(old_tokens) + seq![
                        (TokenView::Other(TokenType::Eof), self.line as int, self.column as int),
                    ]);
                }
                return Ok(tokens);
            }
            let ghost mid = self.cursor();
            let token = self.next_token();
            match token {
                Ok(t) => {
                    let ghost old_tokens = tokens@;
                    tokens.push(t);
                    proof {
                        assert(tokens_view(tokens@) =~= tokens_view(old_tokens) + seq![t@]);
                        let rest = lex_from(
                            s,
                            self.position as int,
                            self.line as int,
                            self.column as int,
                        );
                        match rest {
                            Ok(r) => {
                                assert(tokens_view(tokens@) + r =~= tokens_view(old_tokens) + (
                                seq![t@] + r));
                            },
                            Err(_) => {},
                        }
                    }
                },
                Err(e) => {
                    proof {
                        let (p, l, c) = skip_ws(s, pre.0, pre.1, pre.2);
                        assert(scan_token(s, p, l, c) is Err);
                        assert(lex_from(s, pre.0, pre.1, pre.2) == Err::<Seq<(TokenView, int, int)>, LexError>(e));
                    }
                    return Err(e);
                },
            }
        }
    }

    fn next_token(&mut self) -> (r: Result<Token, LexError>)
        requires
            old(self).wf(),
            old(self).position < old(self).input.len(),
            !is_space(old(self).input@[old(self).position as int]),
        ensures
            final(self).input@ == old(self).input@,
            final(self).wf(),
            match scan_token(
                old(self).input@,
                old(self).position as int,
                old(self).line as int,
                old(self).column as int,
            ) {
                Ok((t, np)) => r is Ok && r->Ok_0@ == (t, old(self).line as int, old(self).column as int)
                    && final(self).position == np && final(self).line == old(self).line
                    && final(self).column == old(self).column + (np - old(self).position),
                Err(e) => r == Err::<Token, LexError>(e),
            },
            r is Ok ==> final(self).position > old(self).position,
    {
        let start_line = self.line;
        let start_column = self.column;
        let ch = self.current_char();
        let single = single_char(ch);
        if let Some(k) = single {
            self.advance();
            return Ok(Token::new(k, start_line, start_column));
        }
        if ch == '=' || ch == '!' || ch == '<' || ch == '>' {
            self.advance();
            let follows = !self.is_at_end() && self.current_char() == '=';
            if follows {
                self.advance();
            }
            let typ = if ch == '=' {
                if follows { TokenType::Eq } else { TokenType::Assign }
            } else if ch == '!' {
                if follows { TokenType::Ne } else { TokenType::Bang }
            } else if ch == '<' {
                if follows { TokenType::Le } else { TokenType::Lt }
            } else {
                if follows { TokenType::Ge } else { TokenType::Gt }
            };
            return Ok(Token::new(typ, start_line, start_column));
        }
        if ch == '&' || ch == '|' {
            self.advance();
            if !self.is_at_end() && self.current_char() == ch {
                self.advance();
                let typ = if ch == '&' { TokenType::And } else { TokenType::Or };
                return Ok(Token::new(typ, start_line, start_column));
            }
            return Err(LexError::UnexpectedChar { ch, line: start_line, column: start_column });
        }
        if '0' <= ch && ch <= '9' {
            return self.read_number(start_line, start_column);
        }
        if ('a' <= ch && ch <= 'z') || ('A' <= ch && ch <= 'Z') || ch == '_' {
            return Ok(self.read_identifier(start_line, start_column));
        }
        Err(LexError::UnexpectedChar { ch, line: start_line, column: start_column })
    }

    fn read_number(&mut self, line: usize, column: usize) -> (r: Result<Token, LexError>)
        requires
            old(self).wf(),
            old(self).position < old(self).input.len(),
            is_digit(old(self).input@[old(self).position as int]),
            line == old(self).line,
            column == old(self).column,
        ensures
            final(self).position > old(self).position,
            final(self).input@ == old(self).input@,
            final(self).wf(),
            ({
                let s = old(self).input@;
                let p = old(self).position as int;
                let e = digits_end(s, p);
                let v = digits_value(s.subrange(p, e));
                &&& final(self).position == e
                &&& final(self).line == line
                &&& final(self).column == column + (e - p)
                &&& v <= i64::MAX ==> r == Ok::<Token, LexError>(
                    Token { typ: TokenType::Number(v as i64), line, column },
                )
                &&& v > i64::MAX ==> r == Err::<Token, LexError>(
                    LexError::InvalidNumber { line, column },
                )
            }),
    {
        let ghost s = self.input@;
        let ghost p = self.position as int;
        proof {
            lemma_digits_end(s, p);
            lemma_digits_end(s, p + 1);
            assert(digits_end(s, p) == digits_end(s, p + 1));
        }
        let mut value: i64 = 0;
        let mut overflow = false;
        while !self.is_at_end() && '0' <= self.current_char() && self.current_char() <= '9'
            invariant
                self.wf(),
                self.input@ == s,
                p <= self.position <= digits_end(s, p),
                self.line == line,
                self.column == column + (self.position - p),
                digits_end(s, self.position as int) == digits_end(s, p),
                forall|k: int| p <= k < digits_end(s, p) ==> is_digit(#[trigger] s[k]),
                !overflow ==> value as int == digits_value(s.subrange(p, self.position as int)),
                !overflow ==> value >= 0,
                overflow ==> digits_value(s.subrange(p, self.position as int)) > i64::MAX,
            decreases s.len() - self.position,
        {
            let ghost i = self.position as int;
            let d = self.current_char();
            proof {
                lemma_digits_end(s, i + 1);
                assert(s.subrange(p, i + 1).drop_last() =~= s.subrange(p, i));
                assert(s.subrange(p, i + 1).last() == d);
                assert(digits_value(s.subrange(p, i + 1)) == digits_value(s.subrange(p, i)) * 10
                    + digit_value(d));
            }
            let dv = (d as u32 - '0' as u32) as i64;
            assert(dv as int == digit_value(d));
            if !overflow {
                if value > (i64::MAX - dv) / 10 {
                    assert(value * 10 + dv > i64::MAX) by (nonlinear_arith)
                        requires
                            value > (i64::MAX - dv) / 10,
                            0 <= dv <= 9,
                    ;
                    overflow = true;
                } else {
                    assert(value * 10 + dv <= i64::MAX) by (nonlinear_arith)
                        requires
                            value <= (i64::MAX - dv) / 10,
                            0 <= dv <= 9,
                            value >= 0,
                    ;
                    value = value * 10 + dv;
                }
            } else {
                assert(digits_value(s.subrange(p, i)) * 10 + digit_value(d) > i64::MAX) by (nonlinear_arith)
                    requires
                        digits_value(s.subrange(p, i)) > i64::MAX,
                        0 <= digit_value(d) <= 9,
                ;
            }
            self.advance();
        }
        if overflow {
            Err(LexError::InvalidNumber { line, column })
        } else {
            Ok(Token::new(TokenType::Number(value), line, column))
        }
    }

    fn read_identifier(&mut self, line: usize, column: usize) -> (r: Token)
        requires
            old(self).wf(),
            old(self).position < old(self).input.len(),
            is_ident_start(old(self).input@[old(self).position as int]),
            line == old(self).line,
            column == old(self).column,
        ensures
            final(self).position > old(self).position,
            final(self).input@ == old(self).input@,
            final(self).wf(),
            ({
                let s = old(self).input@;
                let p = old(self).position as int;
                let e = ident_end(s, p);
                let w = s.subrange(p, e);
                &&& final(self).position == e
                &&& final(self).line == line
                &&& final(self).column == column + (e - p)
                &&& r.line == line
                &&& r.column == column
                &&& r.typ@ == match keyword_of(w) {
                    Some(k) => TokenView::Other(k),
                    None => TokenView::Ident(w),
                }
            }),
    {
        let ghost s = self.input@;
        let start = self.position;
        proof {
            lemma_ident_end(s, start as int);
            lemma_ident_end(s, start as int + 1);
            assert(ident_end(s, start as int) == ident_end(s, start as int + 1));
        }
        while !self.is_at_end() && is_ident_char_exec(self.current_char())
            invariant
                self.wf(),
                self.input@ == s,
                start <= self.position <= ident_end(s, start as int),
                self.line == line,
                self.column == column + (self.position - start),
                ident_end(s, self.position as int) == ident_end(s, start as int),
            decreases s.len() - self.position,
        {
            proof {
                lemma_ident_end(s, self.position as int + 1);
            }
            self.advance();
        }
        let end = self.position;
        let typ = match keyword(&self.input, start, end) {
            Some(k) => k,
            None => TokenType::Ident(self.text.as_str().substring_char(start, end).to_owned()),
        };
        Token::new(typ, line, column)
    }

    fn skip_whitespace(&mut self)
        requires
            old(self).wf(),
        ensures
            final(self).wf(),
            final(self).input@ == old(self).input@,
            final(self).cursor() == skip_ws(
                old(self).input@,
                old(self).position as int,
                old(self).line as int,
                old(self).column as int,
            ),
    {
        let ghost s = self.input@;
        let ghost c0 = self.cursor();
        while !self.is_at_end() && is_space_exec(self.current_char())
            invariant
                self.wf(),
                self.input@ == s,
                skip_ws(s, c0.0, c0.1, c0.2) == skip_ws(
                    s,
                    self.position as int,
                    self.line as int,
                    self.column as int,
                ),
            decreases s.len() - self.position,
        {
            if self.current_char() == '\n' {
                self.line = self.line + 1;
                self.column = 1;
                self.position = self.position + 1;
            } else {
                self.advance();
            }
        }
    }

    fn current_char(&self) -> (c: char)
        requires
            self.wf(),
        ensures
            self.position < self.input.len() ==> c == self.input@[self.position as int],
    {
        if self.is_at_end() {
            '\0'
        } else {
            self.input[self.position]
        }
    }

    fn advance(&mut self)
        requires
            old(self).wf(),
            old(self).position < old(self).input.len(),
        ensures
            final(self).wf(),
            final(self).input@ == old(self).input@,
            final(self).position == old(self).position + 1,
            final(self).line == old(self).line,
            final(self).column == old(self).column + 1,
    {
        self.position = self.position + 1;
        self.column = self.column + 1;
    }

    fn is_at_end(&self) -> (r: bool)
        ensures
            r == (self.position >= self.input.len()),
    {
        self.position >= self.input.len()
    }
}

fn is_space_exec(c: char) -> (r: bool)
    ensures
        r == is_space(c),
{
    c == ' ' || c == '\t' || c == '\r' || c == '\n'
}

fn is_ident_char_exec(c: char) -> (r: bool)
    ensures
        r == is_ident_char(c),
{
    ('a' <= c && c <= 'z') || ('A' <= c && c <= 'Z') || c == '_' || ('0' <= c && c <= '9')
}

fn single_char(c: char) -> (r: Option<TokenType>)
    ensures
        r == single_char_token(c),
{
    if c == '(' {
        Some(TokenType::LParen)
    } else if c == ')' {
        Some(TokenType::RParen)
    } else if c == '{' {
        Some(TokenType::LBrace)
    } else if c == '}' {
        Some(TokenType::RBrace)
    } else if c == ',' {
        Some(TokenType::Comma)
    } else if c == ';' {
        Some(TokenType::Semicolon)
    } else if c == '+' {
        Some(TokenType::Plus)
    } else if c == '-' {
        Some(TokenType::Minus)
    } else if c == '*' {
        Some(TokenType::Star)
    } else if c == '/' {
        Some(TokenType::Slash)
    } else if c == '%' {
        Some(TokenType::Percent)
    } else {
        None
    }
}

/// True when `input[start..end]` spells `word`.
fn spells(input: &Vec<char>, start: usize, end: usize, word: &str) -> (r: bool)
    requires
        start <= end <= input.len(),
    ensures
        r == (input@.subrange(start as int, end as int) == word@),
{
    let n = word.unicode_len();
    if end - start != n {
        return false;
    }
    let mut i: usize = 0;
    while i < n
        invariant
            start <= end <= input.len(),
            end - start == n,
            n == word@.len(),
            i <= n,
            forall|k: int| 0 <= k < i ==> input@[start + k] == word@[k],
        decreases n - i,
    {
        if input[start + i] != word.get_char(i) {
            return false;
        }
        i = i + 1;
    }
    assert(input@.subrange(start as int, end as int) =~= word@);
    true
}

/// The reserved word spelt by `input[start..end]`, if any.
fn keyword(input: &Vec<char>, start: usize, end: usize) -> (r: Option<TokenType>)
    requires
        start <= end <= input.len(),
    ensures
        r == keyword_of(input@.subrange(start as int, end as int)),
{
    proof {
        reveal_strlit("func");
        reveal_strlit("let");
        reveal_strlit("if");
        reveal_strlit("else");
        reveal_strlit("while");
        reveal_strlit("return");
        assert("func"@ =~= seq!['f', 'u', 'n', 'c']);
        assert("let"@ =~= seq!['l', 'e', 't']);
        assert("if"@ =~= seq!['i', 'f']);
        assert("else"@ =~= seq!['e', 'l', 's', 'e']);
        assert("while"@ =~= seq!['w', 'h', 'i', 'l', 'e']);
        assert("return"@ =~= seq!['r', 'e', 't', 'u', 'r', 'n']);
    }
    if spells(input, start, end, "func") {
        Some(TokenType::Func)
    } else if spells(input, start, end, "let") {
        Some(TokenType::Let)
    } else if spells(input, start, end, "if") {
        Some(TokenType::If)
    } else if spells(input, start, end, "else") {
        Some(TokenType::Else)
    } else if spells(input, start, end, "while") {
        Some(TokenType::While)
    } else if spells(input, start, end, "return") {
        Some(TokenType::Return)
    } else {
        None
    }
}

} // verus!
